//! Reading a whole GenICam XML description: each node element is read by the state of its
//! kind, child by child, with the events taken from the reader.
use vstd::prelude::*;
use crate::text::bytes_eq;
use crate::xml_events::{
    bound_fail, doc_budget, ends_as, lemma_skip_budget, next_counted, read_text, reader_for, skip_element, skip_run, xml_event, xml_text,
    ElementHead, Ends, ReadLog, XmlEvent, XmlReader,
};
use crate::xml_model::{schema_version_from, EnumEntryDecl, SkOutput, XmlError};
use crate::xml_nodes::{
    begin_spec, empty_spec, entry_build, entry_step, entry_view, reads_child, spec_tag_of, start_spec, text_of,
    EntryParts, NodeView, command_step, category_step, category_empty_step, texts, sk_start, sk_empty, SkView,
    attr, attr_of, command_finish, entry_begin, fails, finish_spec, invalid, parse_category_empty, parse_command_empty, reads,
    required_of, sk_finish, tag_of, CategoryState, CommandState, EntryState, Fail, NodeDecl, NodeKind, NodeState,
    SwissKnifeState, Tag,
};

verus! {

/// Full XML model: the schema version and all declared nodes.
#[derive(Debug)]
pub struct XmlModel {
    /// Combined schema version extracted from the RegisterDescription attributes.
    pub version: String,
    /// Flat list of node declarations present in the document.
    pub nodes: Vec<NodeDecl>,
}

/// The error returned when the reader yields more events than the document has bytes.
fn budget_error() -> (e: XmlError)
    ensures
        e matches XmlError::Invalid(m) && m@ == crate::xml_events::event_bound_msg(),
{
    XmlError::Invalid(String::from_str("more XML events than bytes in the document"))
}

/// The start of the message for a node of `kind` whose end tag never came.
pub open spec fn unterminated_word(kind: NodeKind) -> Seq<char> {
    match kind {
        NodeKind::Integer => "unterminated Integer node "@,
        NodeKind::Float => "unterminated Float node "@,
        NodeKind::Enumeration => "unterminated Enumeration node "@,
        NodeKind::Boolean => "unterminated Boolean node "@,
    }
}

/// The word naming a kind of node in messages.
fn kind_word(kind: NodeKind) -> (s: &'static str)
    ensures
        s@ == unterminated_word(kind),
{
    match kind {
        NodeKind::Integer => "unterminated Integer node ",
        NodeKind::Float => "unterminated Float node ",
        NodeKind::Enumeration => "unterminated Enumeration node ",
        NodeKind::Boolean => "unterminated Boolean node ",
    }
}

/// The failure a result holds, if any.
pub open spec fn err_of<X>(r: Result<X, Fail>) -> Option<Fail> {
    match r {
        Err(f) => Some(f),
        Ok(_) => None,
    }
}

/// What a reader of an element does before the events decide: it fails as its own tag
/// fails (`begun`), reading nothing; it fails on an exhausted event budget; and it succeeds
/// only after reading at least one event.
pub open spec fn before_events<T>(begun: Option<Fail>, budget: usize, final_budget: usize, r: Result<T, XmlError>) -> bool {
    match begun {
        Some(f) => fails(r, f) && final_budget == budget,
        None => (budget == 0 ==> (r matches Err(XmlError::Invalid(m)) && m@ == crate::xml_events::event_bound_msg()))
            && (r is Ok ==> final_budget < budget),
    }
}

/// The children an enumeration entry reads as text.
pub open spec fn entry_tag(t: Option<Tag>) -> bool {
    t == Some(Tag::Value) || t == Some(Tag::PValue) || t == Some(Tag::DisplayName) || t == Some(Tag::Name)
}

/// Reading the children of the enumeration entry whose tag is named `hname`, from the reads
/// `log` of `doc` on, with the parts `st` read so far and `budget` events left: how it ends,
/// the reads then and the budget left.
pub open spec fn entry_run(doc: Seq<char>, log: ReadLog, hname: Seq<u8>, st: EntryParts, budget: nat) -> (
    Ends<EntryParts>,
    ReadLog,
    nat,
)
    decreases budget,
{
    if budget == 0 {
        (Ends::Refused(bound_fail()), log, budget)
    } else {
        let l2 = log.push(None);
        let b2 = (budget - 1) as nat;
        match xml_event(doc, log) {
            Err(e) => (Ends::Reader(e), l2, b2),
            Ok(XmlEvent::Start(e)) => if entry_tag(spec_tag_of(e.name@)) {
                let l3 = l2.push(Some(e.name@));
                match xml_text(doc, l2, e.name@) {
                    Err(x) => (Ends::Reader(x), l3, b2),
                    Ok(x) => entry_run(doc, l3, hname, entry_step(st, spec_tag_of(e.name@)->Some_0, x@), b2),
                }
            } else {
                let (k, l3, b3) = skip_run(doc, l2, e.name@, b2, 1);
                match k {
                    Ends::Closed(_) => {
                        proof {
                            lemma_skip_budget(doc, l2, e.name@, b2, 1);
                        }
                        entry_run(doc, l3, hname, st, b3)
                    },
                    Ends::Reader(x) => (Ends::Reader(x), l3, b3),
                    Ends::Refused(f) => (Ends::Refused(f), l3, b3),
                }
            },
            Ok(XmlEvent::End(n)) => if n@ == hname {
                (Ends::Closed(st), l2, b2)
            } else {
                entry_run(doc, l2, hname, st, b2)
            },
            Ok(XmlEvent::Eof) => (Ends::Refused(Fail::Invalid("unterminated EnumEntry element"@)), l2, b2),
            Ok(_) => entry_run(doc, l2, hname, st, b2),
        }
    }
}

/// Reading an entry's children never gives back budget.
pub proof fn lemma_entry_budget(doc: Seq<char>, log: ReadLog, hname: Seq<u8>, st: EntryParts, budget: nat)
    ensures
        entry_run(doc, log, hname, st, budget).2 <= budget,
    decreases budget,
{
    if budget > 0 {
        let l2 = log.push(None);
        let b2 = (budget - 1) as nat;
        match xml_event(doc, log) {
            Ok(XmlEvent::Start(e)) => if entry_tag(spec_tag_of(e.name@)) {
                let l3 = l2.push(Some(e.name@));
                match xml_text(doc, l2, e.name@) {
                    Ok(x) => lemma_entry_budget(doc, l3, hname, entry_step(st, spec_tag_of(e.name@)->Some_0, x@), b2),
                    Err(_) => {},
                }
            } else {
                lemma_skip_budget(doc, l2, e.name@, b2, 1);
                let (k, l3, b3) = skip_run(doc, l2, e.name@, b2, 1);
                if k is Closed {
                    lemma_entry_budget(doc, l3, hname, st, b3);
                }
            },
            Ok(XmlEvent::End(n)) => if n@ != hname {
                lemma_entry_budget(doc, l2, hname, st, b2);
            },
            Ok(XmlEvent::Eof) => {},
            Err(_) => {},
            Ok(_) => lemma_entry_budget(doc, l2, hname, st, b2),
        }
    }
}

/// What the entry read gives when reading ends as `e`.
pub open spec fn entry_gives(e: Ends<EntryParts>, r: Result<EnumEntryDecl, XmlError>) -> bool {
    match e {
        Ends::Closed(q) => match entry_build(q.name, q.literal, q.provider, q.display_name) {
            Err(f) => fails(r, f),
            Ok(ev) => r is Ok && entry_view(r->Ok_0) == ev,
        },
        _ => r is Err && ends_as(e, r),
    }
}

/// What reading the enumeration entry `head` from `reader` gives: its own tag refused, or
/// the entry its child elements make, as `entry_run` reads them.
pub open spec fn entry_read(doc: Seq<char>, log: ReadLog, head: ElementHead, budget: nat, log2: ReadLog, budget2: nat, r: Result<EnumEntryDecl, XmlError>) -> bool {
    match entry_begin(head) {
        Err(f) => fails(r, f) && log2 == log && budget2 == budget,
        Ok(p) => {
            let (e, l, b) = entry_run(doc, log, head.name@, p, budget);
            log2 == l && budget2 == b && entry_gives(e, r)
        },
    }
}

/// Read an enumeration entry written with child elements, up to its end tag.
pub fn parse_enum_entry<'a>(
    reader: &mut XmlReader<'a>,
    head: &ElementHead,
    budget: &mut usize,
) -> (r: Result<EnumEntryDecl, XmlError>)
    ensures
        final(reader)@.0 == old(reader)@.0,
        entry_read(old(reader)@.0, old(reader)@.1, *head, *old(budget) as nat, final(reader)@.1, *final(budget) as nat, r),
        before_events(err_of(entry_begin(*head)), *old(budget), *final(budget), r),
        *final(budget) <= *old(budget),
{
    let mut st = match EntryState::begin(head) {
        Err(e) => return Err(e),
        Ok(s) => s,
    };
    let ghost doc = reader@.0;
    let ghost run = entry_run(doc, reader@.1, head.name@, st.view(), *budget as nat);
    loop
        invariant
            err_of(entry_begin(*head)) is None,
            entry_begin(*head) == Ok::<EntryParts, Fail>(entry_begin(*head)->Ok_0),
            run == entry_run(doc, old(reader)@.1, head.name@, entry_begin(*head)->Ok_0, *old(budget) as nat),
            run == entry_run(doc, reader@.1, head.name@, st.view(), *budget as nat),
            reader@.0 == doc,
            doc == old(reader)@.0,
            *budget <= *old(budget),
        decreases *budget,
    {
        if *budget == 0 {
            return Err(budget_error());
        }
        match next_counted(reader, budget) {
            Err(e) => return Err(e),
            Ok(XmlEvent::Start(e)) => {
                match tag_of(e.name.as_slice()) {
                    Some(t) => if t == Tag::Value || t == Tag::PValue || t == Tag::DisplayName || t == Tag::Name {
                        match read_text(reader, e.name.as_slice()) {
                            Err(x) => return Err(x),
                            Ok(x) => st.apply_text(t, x.as_str()),
                        }
                    } else {
                        match skip_element(reader, e.name.as_slice(), budget) {
                            Err(x) => return Err(x),
                            Ok(()) => {},
                        }
                    },
                    None => match skip_element(reader, e.name.as_slice(), budget) {
                        Err(x) => return Err(x),
                        Ok(()) => {},
                    },
                }
            },
            Ok(XmlEvent::End(n)) => {
                if bytes_eq(n.as_slice(), head.name.as_slice()) {
                    return st.finish();
                }
            },
            Ok(XmlEvent::Eof) => {
                return Err(XmlError::Invalid(String::from_str("unterminated EnumEntry element")));
            },
            _ => {},
        }
    }
}

/// Reading the children of a node of `kind` whose tag is named `hname`, from the reads `log`
/// of `doc` on, with the state `st` read so far and `budget` events left: how it ends, the
/// reads then and the budget left.
pub open spec fn reg_run(doc: Seq<char>, log: ReadLog, hname: Seq<u8>, kind: NodeKind, st: NodeView, budget: nat) -> (
    Ends<NodeView>,
    ReadLog,
    nat,
)
    decreases budget,
{
    if budget == 0 {
        (Ends::Refused(bound_fail()), log, budget)
    } else {
        let l2 = log.push(None);
        let b2 = (budget - 1) as nat;
        match xml_event(doc, log) {
            Err(e) => (Ends::Reader(e), l2, b2),
            Ok(XmlEvent::Start(e)) => {
                let t = spec_tag_of(e.name@);
                if t is Some && reads_child(kind, t->Some_0) {
                    let l3 = l2.push(Some(e.name@));
                    match start_spec(st, t->Some_0, e, text_of(xml_text(doc, l2, e.name@))) {
                        Err(f) => (Ends::Refused(f), l3, b2),
                        Ok(v) => reg_run(doc, l3, hname, kind, v, b2),
                    }
                } else if t == Some(Tag::EnumEntry) && kind == NodeKind::Enumeration {
                    match entry_begin(e) {
                        Err(f) => (Ends::Refused(f), l2, b2),
                        Ok(p) => {
                            let (k, l3, b3) = entry_run(doc, l2, e.name@, p, b2);
                            match k {
                                Ends::Closed(q) => match entry_build(q.name, q.literal, q.provider, q.display_name) {
                                    Err(f) => (Ends::Refused(f), l3, b3),
                                    Ok(ev) => {
                                        proof {
                                            lemma_entry_budget(doc, l2, e.name@, p, b2);
                                        }
                                        reg_run(doc, l3, hname, kind, NodeView { entries: st.entries.push(ev), ..st }, b3)
                                    },
                                },
                                Ends::Reader(x) => (Ends::Reader(x), l3, b3),
                                Ends::Refused(f) => (Ends::Refused(f), l3, b3),
                            }
                        },
                    }
                } else {
                    let (k, l3, b3) = skip_run(doc, l2, e.name@, b2, 1);
                    match k {
                        Ends::Closed(_) => {
                            proof {
                                lemma_skip_budget(doc, l2, e.name@, b2, 1);
                            }
                            reg_run(doc, l3, hname, kind, st, b3)
                        },
                        Ends::Reader(x) => (Ends::Reader(x), l3, b3),
                        Ends::Refused(f) => (Ends::Refused(f), l3, b3),
                    }
                }
            },
            Ok(XmlEvent::Empty(e)) => match empty_spec(st, spec_tag_of(e.name@), e) {
                Err(f) => (Ends::Refused(f), l2, b2),
                Ok(v) => reg_run(doc, l2, hname, kind, v, b2),
            },
            Ok(XmlEvent::End(n)) => if n@ == hname {
                (Ends::Closed(st), l2, b2)
            } else {
                reg_run(doc, l2, hname, kind, st, b2)
            },
            Ok(XmlEvent::Eof) => (Ends::Refused(Fail::Invalid(unterminated_word(kind) + st.name + ""@)), l2, b2),
            Ok(XmlEvent::Other) => reg_run(doc, l2, hname, kind, st, b2),
        }
    }
}

/// What a node reader of `kind` gives when reading ends as `e`: the declaration of a node
/// state with the contents read, or the error.
pub open spec fn reg_gives(e: Ends<NodeView>, r: Result<NodeDecl, XmlError>) -> bool {
    match e {
        Ends::Closed(v) => exists|s: NodeState| s.view() == v && #[trigger] finish_spec(s, r),
        _ => r is Err && ends_as(e, r),
    }
}

/// What reading the node of `kind` with tag `head` from the reads `log` of `doc` gives: its
/// own tag refused, or what `reg_run` reads of its children.
pub open spec fn reg_read(doc: Seq<char>, log: ReadLog, head: ElementHead, kind: NodeKind, budget: nat, log2: ReadLog, budget2: nat, r: Result<NodeDecl, XmlError>) -> bool {
    match begin_spec(kind, head) {
        Err(f) => fails(r, f) && log2 == log && budget2 == budget,
        Ok(v) => {
            let (e, l, b) = reg_run(doc, log, head.name@, kind, v, budget);
            log2 == l && budget2 == b && reg_gives(e, r)
        },
    }
}

/// Read an `<Integer>`, `<Float>`, `<Enumeration>` or `<Boolean>` node, up to its end tag.
pub fn parse_register_node<'a>(
    reader: &mut XmlReader<'a>,
    head: &ElementHead,
    kind: NodeKind,
    budget: &mut usize,
) -> (r: Result<NodeDecl, XmlError>)
    ensures
        final(reader)@.0 == old(reader)@.0,
        reg_read(old(reader)@.0, old(reader)@.1, *head, kind, *old(budget) as nat, final(reader)@.1, *final(budget) as nat, r),
        before_events(err_of(crate::xml_nodes::begin_spec(kind, *head)), *old(budget), *final(budget), r),
        *final(budget) <= *old(budget),
        r is Ok ==> exists|s: NodeState|
            s.kind == kind && required_of(*head, Tag::Name) == Ok::<Seq<char>, Fail>(s.name@)
                && #[trigger] finish_spec(s, r),
{
    let mut st = match NodeState::begin(kind, head) {
        Err(e) => return Err(e),
        Ok(s) => s,
    };
    let ghost name = st.name@;
    let ghost doc = reader@.0;
    let ghost run = reg_run(doc, reader@.1, head.name@, kind, st.view(), *budget as nat);
    loop
        invariant
            err_of(crate::xml_nodes::begin_spec(kind, *head)) is None,
            run == reg_run(doc, old(reader)@.1, head.name@, kind, begin_spec(kind, *head)->Ok_0, *old(budget) as nat),
            run == reg_run(doc, reader@.1, head.name@, kind, st.view(), *budget as nat),
            reader@.0 == doc,
            doc == old(reader)@.0,
            *budget <= *old(budget),
            st.wf(),
            st.kind == kind,
            st.name@ == name,
            required_of(*head, Tag::Name) == Ok::<Seq<char>, Fail>(name),
        decreases *budget,
    {
        if *budget == 0 {
            return Err(budget_error());
        }
        match next_counted(reader, budget) {
            Err(e) => return Err(e),
            Ok(XmlEvent::Start(e)) => {
                let t = tag_of(e.name.as_slice());
                let mut done = false;
                if let Some(tg) = t {
                    if reads(kind, tg) {
                        let text = read_text(reader, e.name.as_slice());
                        match st.on_start(tg, &e, text) {
                            Err(x) => return Err(x),
                            Ok(()) => {},
                        }
                        done = true;
                    } else if tg == Tag::EnumEntry && kind == NodeKind::Enumeration {
                        match parse_enum_entry(reader, &e, budget) {
                            Err(x) => return Err(x),
                            Ok(en) => st.add_entry(en),
                        }
                        done = true;
                    }
                }
                if !done {
                    match skip_element(reader, e.name.as_slice(), budget) {
                        Err(x) => return Err(x),
                        Ok(()) => {},
                    }
                }
            },
            Ok(XmlEvent::Empty(e)) => {
                match st.on_empty(tag_of(e.name.as_slice()), &e) {
                    Err(x) => return Err(x),
                    Ok(()) => {},
                }
            },
            Ok(XmlEvent::End(n)) => {
                if bytes_eq(n.as_slice(), head.name.as_slice()) {
                    let ghost s0 = st;
                    let r = st.finish();
                    assert(finish_spec(s0, r));
                    return r;
                }
            },
            Ok(XmlEvent::Eof) => {
                return Err(invalid(kind_word(kind), st.name.as_str(), ""));
            },
            Ok(XmlEvent::Other) => {},
        }
    }
}

/// Read an `<Integer>` node.
pub fn parse_integer<'a>(reader: &mut XmlReader<'a>, head: &ElementHead, budget: &mut usize) -> (r: Result<
    NodeDecl,
    XmlError,
>)
    ensures
        final(reader)@.0 == old(reader)@.0,
        reg_read(old(reader)@.0, old(reader)@.1, *head, NodeKind::Integer, *old(budget) as nat, final(reader)@.1, *final(budget) as nat, r),
        before_events(err_of(crate::xml_nodes::begin_spec(NodeKind::Integer, *head)), *old(budget), *final(budget), r),
        *final(budget) <= *old(budget),
        r is Ok ==> exists|s: NodeState|
            s.kind == NodeKind::Integer && required_of(*head, Tag::Name) == Ok::<Seq<char>, Fail>(s.name@)
                && #[trigger] finish_spec(s, r),
{
    parse_register_node(reader, head, NodeKind::Integer, budget)
}

/// Read a `<Float>` node.
pub fn parse_float<'a>(reader: &mut XmlReader<'a>, head: &ElementHead, budget: &mut usize) -> (r: Result<
    NodeDecl,
    XmlError,
>)
    ensures
        final(reader)@.0 == old(reader)@.0,
        reg_read(old(reader)@.0, old(reader)@.1, *head, NodeKind::Float, *old(budget) as nat, final(reader)@.1, *final(budget) as nat, r),
        before_events(err_of(crate::xml_nodes::begin_spec(NodeKind::Float, *head)), *old(budget), *final(budget), r),
        *final(budget) <= *old(budget),
        r is Ok ==> exists|s: NodeState|
            s.kind == NodeKind::Float && required_of(*head, Tag::Name) == Ok::<Seq<char>, Fail>(s.name@)
                && #[trigger] finish_spec(s, r),
{
    parse_register_node(reader, head, NodeKind::Float, budget)
}

/// Read an `<Enumeration>` node.
pub fn parse_enum<'a>(reader: &mut XmlReader<'a>, head: &ElementHead, budget: &mut usize) -> (r: Result<
    NodeDecl,
    XmlError,
>)
    ensures
        final(reader)@.0 == old(reader)@.0,
        reg_read(old(reader)@.0, old(reader)@.1, *head, NodeKind::Enumeration, *old(budget) as nat, final(reader)@.1, *final(budget) as nat, r),
        before_events(err_of(crate::xml_nodes::begin_spec(NodeKind::Enumeration, *head)), *old(budget), *final(budget), r),
        *final(budget) <= *old(budget),
        r is Ok ==> exists|s: NodeState|
            s.kind == NodeKind::Enumeration && required_of(*head, Tag::Name) == Ok::<Seq<char>, Fail>(s.name@)
                && #[trigger] finish_spec(s, r),
{
    parse_register_node(reader, head, NodeKind::Enumeration, budget)
}

/// Read a `<Boolean>` node.
pub fn parse_boolean<'a>(reader: &mut XmlReader<'a>, head: &ElementHead, budget: &mut usize) -> (r: Result<
    NodeDecl,
    XmlError,
>)
    ensures
        final(reader)@.0 == old(reader)@.0,
        reg_read(old(reader)@.0, old(reader)@.1, *head, NodeKind::Boolean, *old(budget) as nat, final(reader)@.1, *final(budget) as nat, r),
        before_events(err_of(crate::xml_nodes::begin_spec(NodeKind::Boolean, *head)), *old(budget), *final(budget), r),
        *final(budget) <= *old(budget),
        r is Ok ==> exists|s: NodeState|
            s.kind == NodeKind::Boolean && required_of(*head, Tag::Name) == Ok::<Seq<char>, Fail>(s.name@)
                && #[trigger] finish_spec(s, r),
{
    parse_register_node(reader, head, NodeKind::Boolean, budget)
}

/// Reading the children of the command named `name` whose tag is named `hname`, from the
/// reads `log` of `doc` on, with the address and length read so far and `budget` events
/// left: how it ends, the reads then and the budget left.
pub open spec fn cmd_run(doc: Seq<char>, log: ReadLog, hname: Seq<u8>, name: Seq<char>, st: (Option<u64>, Option<u32>), budget: nat) -> (
    Ends<(Option<u64>, Option<u32>)>,
    ReadLog,
    nat,
)
    decreases budget,
{
    if budget == 0 {
        (Ends::Refused(bound_fail()), log, budget)
    } else {
        let l2 = log.push(None);
        let b2 = (budget - 1) as nat;
        match xml_event(doc, log) {
            Err(e) => (Ends::Reader(e), l2, b2),
            Ok(XmlEvent::Start(e)) => {
                let t = spec_tag_of(e.name@);
                if t == Some(Tag::Address) || t == Some(Tag::Length) {
                    let l3 = l2.push(Some(e.name@));
                    match xml_text(doc, l2, e.name@) {
                        Err(x) => (Ends::Reader(x), l3, b2),
                        Ok(x) => match command_step(name, st.0, st.1, t->Some_0, x@) {
                            Err(f) => (Ends::Refused(f), l3, b2),
                            Ok(p) => cmd_run(doc, l3, hname, name, p, b2),
                        },
                    }
                } else {
                    let (k, l3, b3) = skip_run(doc, l2, e.name@, b2, 1);
                    match k {
                        Ends::Closed(_) => {
                            proof {
                                lemma_skip_budget(doc, l2, e.name@, b2, 1);
                            }
                            cmd_run(doc, l3, hname, name, st, b3)
                        },
                        Ends::Reader(x) => (Ends::Reader(x), l3, b3),
                        Ends::Refused(f) => (Ends::Refused(f), l3, b3),
                    }
                }
            },
            Ok(XmlEvent::End(n)) => if n@ == hname {
                (Ends::Closed(st), l2, b2)
            } else {
                cmd_run(doc, l2, hname, name, st, b2)
            },
            Ok(XmlEvent::Eof) => (Ends::Refused(Fail::Invalid("unterminated Command node "@ + name + ""@)), l2, b2),
            Ok(_) => cmd_run(doc, l2, hname, name, st, b2),
        }
    }
}

/// The declaration of a command named `name` with the address and length read: the address
/// is required, the length defaults to 1.
pub open spec fn command_done(name: Seq<char>, address: Option<u64>, length: Option<u32>, r: Result<NodeDecl, XmlError>) -> bool {
    match address {
        None => fails(r, Fail::Invalid("Command node "@ + name + " is missing <Address>"@)),
        Some(a) => r matches Ok(NodeDecl::Command { name: nm, address: ad, len }) && nm@ == name && ad == a
            && len == (if length is Some { length->Some_0 } else { 1u32 }),
    }
}

/// What reading the command with tag `head` from the reads `log` of `doc` gives: its own tag
/// refused, or the declaration `command_done` makes of what `cmd_run` reads.
pub open spec fn cmd_read(doc: Seq<char>, log: ReadLog, head: ElementHead, budget: nat, log2: ReadLog, budget2: nat, r: Result<NodeDecl, XmlError>) -> bool {
    match required_of(head, Tag::Name) {
        Err(f) => fails(r, f) && log2 == log && budget2 == budget,
        Ok(n) => {
            let (e, l, b) = cmd_run(doc, log, head.name@, n, (None, None), budget);
            log2 == l && budget2 == b && match e {
                Ends::Closed(st) => command_done(n, st.0, st.1, r),
                _ => r is Err && ends_as(e, r),
            }
        },
    }
}

/// Read a `<Command>` node with child elements, up to its end tag. A declaration returned
/// has the node's name and is what `command_done` makes of the address and length read.
pub fn parse_command<'a>(reader: &mut XmlReader<'a>, head: &ElementHead, budget: &mut usize) -> (r: Result<
    NodeDecl,
    XmlError,
>)
    ensures
        final(reader)@.0 == old(reader)@.0,
        cmd_read(old(reader)@.0, old(reader)@.1, *head, *old(budget) as nat, final(reader)@.1, *final(budget) as nat, r),
        before_events(err_of(required_of(*head, Tag::Name)), *old(budget), *final(budget), r),
        *final(budget) <= *old(budget),
        r is Ok ==> exists|s: CommandState|
            required_of(*head, Tag::Name) == Ok::<Seq<char>, Fail>(s.name@) && #[trigger] command_finish(
                s.name,
                s.address,
                s.length,
                r,
            ),
{
    let mut st = match CommandState::begin(head) {
        Err(e) => return Err(e),
        Ok(s) => s,
    };
    let ghost name = st.name@;
    let ghost doc = reader@.0;
    let ghost run = cmd_run(doc, reader@.1, head.name@, name, (st.address, st.length), *budget as nat);
    loop
        invariant
            run == cmd_run(doc, old(reader)@.1, head.name@, name, (None, None), *old(budget) as nat),
            run == cmd_run(doc, reader@.1, head.name@, name, (st.address, st.length), *budget as nat),
            reader@.0 == doc,
            doc == old(reader)@.0,
            err_of(required_of(*head, Tag::Name)) is None,
            *budget <= *old(budget),
            st.name@ == name,
            required_of(*head, Tag::Name) == Ok::<Seq<char>, Fail>(name),
        decreases *budget,
    {
        if *budget == 0 {
            return Err(budget_error());
        }
        match next_counted(reader, budget) {
            Err(e) => return Err(e),
            Ok(XmlEvent::Start(e)) => {
                let t = tag_of(e.name.as_slice());
                if t == Some(Tag::Address) || t == Some(Tag::Length) {
                    match read_text(reader, e.name.as_slice()) {
                        Err(x) => return Err(x),
                        Ok(x) => match st.apply_text(t.unwrap(), x.as_str()) {
                            Err(x) => return Err(x),
                            Ok(()) => {},
                        },
                    }
                } else {
                    match skip_element(reader, e.name.as_slice(), budget) {
                        Err(x) => return Err(x),
                        Ok(()) => {},
                    }
                }
            },
            Ok(XmlEvent::End(n)) => {
                if bytes_eq(n.as_slice(), head.name.as_slice()) {
                    let ghost s0 = st;
                    let r = st.finish();
                    assert(command_finish(s0.name, s0.address, s0.length, r));
                    assert(command_done(name, s0.address, s0.length, r));
                    return r;
                }
            },
            Ok(XmlEvent::Eof) => {
                return Err(invalid("unterminated Command node ", st.name.as_str(), ""));
            },
            _ => {},
        }
    }
}

/// Reading the children of the category named `name` whose tag is named `hname`, from the
/// reads `log` of `doc` on, with the children named so far and `budget` events left: how it
/// ends, the reads then and the budget left.
pub open spec fn cat_run(doc: Seq<char>, log: ReadLog, hname: Seq<u8>, name: Seq<char>, st: Seq<Seq<char>>, budget: nat) -> (
    Ends<Seq<Seq<char>>>,
    ReadLog,
    nat,
)
    decreases budget,
{
    if budget == 0 {
        (Ends::Refused(bound_fail()), log, budget)
    } else {
        let l2 = log.push(None);
        let b2 = (budget - 1) as nat;
        match xml_event(doc, log) {
            Err(e) => (Ends::Reader(e), l2, b2),
            Ok(XmlEvent::Start(e)) => {
                if spec_tag_of(e.name@) == Some(Tag::PFeature) {
                    let l3 = l2.push(Some(e.name@));
                    match xml_text(doc, l2, e.name@) {
                        Err(x) => (Ends::Reader(x), l3, b2),
                        Ok(x) => cat_run(doc, l3, hname, name, category_step(st, x@), b2),
                    }
                } else {
                    let (k, l3, b3) = skip_run(doc, l2, e.name@, b2, 1);
                    match k {
                        Ends::Closed(_) => {
                            proof {
                                lemma_skip_budget(doc, l2, e.name@, b2, 1);
                            }
                            cat_run(doc, l3, hname, name, st, b3)
                        },
                        Ends::Reader(x) => (Ends::Reader(x), l3, b3),
                        Ends::Refused(f) => (Ends::Refused(f), l3, b3),
                    }
                }
            },
            Ok(XmlEvent::Empty(e)) => if spec_tag_of(e.name@) == Some(Tag::PFeature) {
                match category_empty_step(st, e) {
                    Err(f) => (Ends::Refused(f), l2, b2),
                    Ok(c) => cat_run(doc, l2, hname, name, c, b2),
                }
            } else {
                cat_run(doc, l2, hname, name, st, b2)
            },
            Ok(XmlEvent::End(n)) => if n@ == hname {
                (Ends::Closed(st), l2, b2)
            } else {
                cat_run(doc, l2, hname, name, st, b2)
            },
            Ok(XmlEvent::Eof) => (Ends::Refused(Fail::Invalid("unterminated Category node "@ + name + ""@)), l2, b2),
            Ok(_) => cat_run(doc, l2, hname, name, st, b2),
        }
    }
}

/// What reading the category with tag `head` from the reads `log` of `doc` gives: its own
/// tag refused, or the category named by its tag with the children `cat_run` reads.
pub open spec fn cat_read(doc: Seq<char>, log: ReadLog, head: ElementHead, budget: nat, log2: ReadLog, budget2: nat, r: Result<NodeDecl, XmlError>) -> bool {
    match required_of(head, Tag::Name) {
        Err(f) => fails(r, f) && log2 == log && budget2 == budget,
        Ok(n) => {
            let (e, l, b) = cat_run(doc, log, head.name@, n, Seq::empty(), budget);
            log2 == l && budget2 == b && match e {
                Ends::Closed(c) => r matches Ok(NodeDecl::Category { name, children }) && name@ == n && texts(children@) == c,
                _ => r is Err && ends_as(e, r),
            }
        },
    }
}

/// Read a `<Category>` node with child elements, up to its end tag. A declaration returned
/// has the node's name.
pub fn parse_category<'a>(reader: &mut XmlReader<'a>, head: &ElementHead, budget: &mut usize) -> (r: Result<
    NodeDecl,
    XmlError,
>)
    ensures
        final(reader)@.0 == old(reader)@.0,
        cat_read(old(reader)@.0, old(reader)@.1, *head, *old(budget) as nat, final(reader)@.1, *final(budget) as nat, r),
        before_events(err_of(required_of(*head, Tag::Name)), *old(budget), *final(budget), r),
        *final(budget) <= *old(budget),
        r is Ok ==> (r->Ok_0 matches NodeDecl::Category { name, .. } && required_of(*head, Tag::Name)
            == Ok::<Seq<char>, Fail>(name@)),
{
    let mut st = match CategoryState::begin(head) {
        Err(e) => return Err(e),
        Ok(s) => s,
    };
    let ghost name = st.name@;
    let ghost doc = reader@.0;
    assert(texts(st.children@) =~= Seq::<Seq<char>>::empty());
    let ghost run = cat_run(doc, reader@.1, head.name@, name, texts(st.children@), *budget as nat);
    loop
        invariant
            run == cat_run(doc, old(reader)@.1, head.name@, name, Seq::empty(), *old(budget) as nat),
            run == cat_run(doc, reader@.1, head.name@, name, texts(st.children@), *budget as nat),
            reader@.0 == doc,
            doc == old(reader)@.0,
            err_of(required_of(*head, Tag::Name)) is None,
            *budget <= *old(budget),
            st.name@ == name,
            required_of(*head, Tag::Name) == Ok::<Seq<char>, Fail>(name),
        decreases *budget,
    {
        if *budget == 0 {
            return Err(budget_error());
        }
        match next_counted(reader, budget) {
            Err(e) => return Err(e),
            Ok(XmlEvent::Start(e)) => {
                if tag_of(e.name.as_slice()) == Some(Tag::PFeature) {
                    match read_text(reader, e.name.as_slice()) {
                        Err(x) => return Err(x),
                        Ok(x) => st.feature_text(x.as_str()),
                    }
                } else {
                    match skip_element(reader, e.name.as_slice(), budget) {
                        Err(x) => return Err(x),
                        Ok(()) => {},
                    }
                }
            },
            Ok(XmlEvent::Empty(e)) => {
                if tag_of(e.name.as_slice()) == Some(Tag::PFeature) {
                    match st.feature_empty(&e) {
                        Err(x) => return Err(x),
                        Ok(()) => {},
                    }
                }
            },
            Ok(XmlEvent::End(n)) => {
                if bytes_eq(n.as_slice(), head.name.as_slice()) {
                    return Ok(st.finish());
                }
            },
            Ok(XmlEvent::Eof) => {
                return Err(invalid("unterminated Category node ", st.name.as_str(), ""));
            },
            _ => {},
        }
    }
}

/// The children a SwissKnife node reads as text.
pub open spec fn sk_tag(t: Option<Tag>) -> bool {
    t == Some(Tag::Expression) || t == Some(Tag::PVariable) || t == Some(Tag::Output)
}

/// Reading the children of a SwissKnife node whose tag is named `hname`, from the reads
/// `log` of `doc` on, with the state `st` read so far and `budget` events left: how it ends,
/// the reads then and the budget left.
pub open spec fn sk_run(doc: Seq<char>, log: ReadLog, hname: Seq<u8>, st: SkView, budget: nat) -> (Ends<SkView>, ReadLog, nat)
    decreases budget,
{
    if budget == 0 {
        (Ends::Refused(bound_fail()), log, budget)
    } else {
        let l2 = log.push(None);
        let b2 = (budget - 1) as nat;
        match xml_event(doc, log) {
            Err(e) => (Ends::Reader(e), l2, b2),
            Ok(XmlEvent::Start(e)) => {
                let t = spec_tag_of(e.name@);
                if sk_tag(t) {
                    let l3 = l2.push(Some(e.name@));
                    match sk_start(st, t->Some_0, e, text_of(xml_text(doc, l2, e.name@))) {
                        Err(f) => (Ends::Refused(f), l3, b2),
                        Ok(v) => sk_run(doc, l3, hname, v, b2),
                    }
                } else {
                    let (k, l3, b3) = skip_run(doc, l2, e.name@, b2, 1);
                    match k {
                        Ends::Closed(_) => {
                            proof {
                                lemma_skip_budget(doc, l2, e.name@, b2, 1);
                            }
                            sk_run(doc, l3, hname, st, b3)
                        },
                        Ends::Reader(x) => (Ends::Reader(x), l3, b3),
                        Ends::Refused(f) => (Ends::Refused(f), l3, b3),
                    }
                }
            },
            Ok(XmlEvent::Empty(e)) => match sk_empty(st, spec_tag_of(e.name@), e) {
                Err(f) => (Ends::Refused(f), l2, b2),
                Ok(v) => sk_run(doc, l2, hname, v, b2),
            },
            Ok(XmlEvent::End(n)) => if n@ == hname {
                (Ends::Closed(st), l2, b2)
            } else {
                sk_run(doc, l2, hname, st, b2)
            },
            Ok(XmlEvent::Eof) => (Ends::Refused(Fail::Invalid("unterminated SwissKnife node "@ + st.name + ""@)), l2, b2),
            Ok(_) => sk_run(doc, l2, hname, st, b2),
        }
    }
}

/// The state a SwissKnife tag begins with.
pub open spec fn sk_begin(h: ElementHead) -> Result<SkView, Fail> {
    match required_of(h, Tag::Name) {
        Err(f) => Err(f),
        Ok(n) => Ok(SkView { name: n, expr: None, variables: Seq::empty(), output: SkOutput::Float }),
    }
}

/// What reading the SwissKnife node with tag `head` from the reads `log` of `doc` gives: its
/// own tag refused, or the declaration of a state with what `sk_run` reads.
pub open spec fn sk_read(doc: Seq<char>, log: ReadLog, head: ElementHead, budget: nat, log2: ReadLog, budget2: nat, r: Result<NodeDecl, XmlError>) -> bool {
    match sk_begin(head) {
        Err(f) => fails(r, f) && log2 == log && budget2 == budget,
        Ok(v) => {
            let (e, l, b) = sk_run(doc, log, head.name@, v, budget);
            log2 == l && budget2 == b && match e {
                Ends::Closed(w) => exists|s: SwissKnifeState| s.view() == w && #[trigger] sk_finish(s, r),
                _ => r is Err && ends_as(e, r),
            }
        },
    }
}

/// Read a `<SwissKnife>` node, up to its end tag. A declaration returned is what
/// `sk_finish` makes of the state after the children read.
pub fn parse_swissknife<'a>(reader: &mut XmlReader<'a>, head: &ElementHead, budget: &mut usize) -> (r: Result<
    NodeDecl,
    XmlError,
>)
    ensures
        final(reader)@.0 == old(reader)@.0,
        sk_read(old(reader)@.0, old(reader)@.1, *head, *old(budget) as nat, final(reader)@.1, *final(budget) as nat, r),
        before_events(err_of(required_of(*head, Tag::Name)), *old(budget), *final(budget), r),
        *final(budget) <= *old(budget),
        r is Ok ==> exists|s: SwissKnifeState|
            required_of(*head, Tag::Name) == Ok::<Seq<char>, Fail>(s.name@) && #[trigger] sk_finish(s, r),
{
    let mut st = match SwissKnifeState::begin(head) {
        Err(e) => return Err(e),
        Ok(s) => s,
    };
    let ghost name = st.name@;
    let ghost doc = reader@.0;
    let ghost run = sk_run(doc, reader@.1, head.name@, st.view(), *budget as nat);
    loop
        invariant
            run == sk_run(doc, old(reader)@.1, head.name@, sk_begin(*head)->Ok_0, *old(budget) as nat),
            run == sk_run(doc, reader@.1, head.name@, st.view(), *budget as nat),
            reader@.0 == doc,
            doc == old(reader)@.0,
            err_of(required_of(*head, Tag::Name)) is None,
            *budget <= *old(budget),
            st.name@ == name,
            required_of(*head, Tag::Name) == Ok::<Seq<char>, Fail>(name),
        decreases *budget,
    {
        if *budget == 0 {
            return Err(budget_error());
        }
        match next_counted(reader, budget) {
            Err(e) => return Err(e),
            Ok(XmlEvent::Start(e)) => {
                let t = tag_of(e.name.as_slice());
                if t == Some(Tag::Expression) || t == Some(Tag::PVariable) || t == Some(Tag::Output) {
                    let text = read_text(reader, e.name.as_slice());
                    match st.on_start(t.unwrap(), &e, text) {
                        Err(x) => return Err(x),
                        Ok(()) => {},
                    }
                } else {
                    match skip_element(reader, e.name.as_slice(), budget) {
                        Err(x) => return Err(x),
                        Ok(()) => {},
                    }
                }
            },
            Ok(XmlEvent::Empty(e)) => {
                match st.on_empty(tag_of(e.name.as_slice()), &e) {
                    Err(x) => return Err(x),
                    Ok(()) => {},
                }
            },
            Ok(XmlEvent::End(n)) => {
                if bytes_eq(n.as_slice(), head.name.as_slice()) {
                    let ghost s0 = st;
                    let r = st.finish();
                    assert(sk_finish(s0, r));
                    return r;
                }
            },
            Ok(XmlEvent::Eof) => {
                return Err(invalid("unterminated SwissKnife node ", st.name.as_str(), ""));
            },
            _ => {},
        }
    }
}

/// The schema version `major.minor.sub` named by a `RegisterDescription` tag, each part
/// defaulting to `0`.
pub open spec fn version_of(h: ElementHead) -> Result<Seq<char>, Fail> {
    match attr_of(h, Tag::SchemaMajorVersion) {
        Err(f) => Err(f),
        Ok(a) => match attr_of(h, Tag::SchemaMinorVersion) {
            Err(f) => Err(f),
            Ok(b) => match attr_of(h, Tag::SchemaSubMinorVersion) {
                Err(f) => Err(f),
                Ok(c) => Ok(
                    (if a is Some { a->Some_0 } else { "0"@ }) + "."@ + (if b is Some { b->Some_0 } else { "0"@ })
                        + "."@ + (if c is Some { c->Some_0 } else { "0"@ }),
                ),
            },
        },
    }
}

/// Read the schema version from a `RegisterDescription` tag.
pub fn schema_version(h: &ElementHead) -> (r: Result<String, XmlError>)
    ensures
        match version_of(*h) {
            Err(f) => fails(r, f),
            Ok(v) => r is Ok && r->Ok_0@ == v,
        },
{
    let major = match attr(h, Tag::SchemaMajorVersion) {
        Err(e) => return Err(e),
        Ok(v) => v,
    };
    let minor = match attr(h, Tag::SchemaMinorVersion) {
        Err(e) => return Err(e),
        Ok(v) => v,
    };
    let sub = match attr(h, Tag::SchemaSubMinorVersion) {
        Err(e) => return Err(e),
        Ok(v) => v,
    };
    Ok(schema_version_from(major, minor, sub))
}

/// The tags of the elements that declare a node.
pub open spec fn node_tag(t: Option<Tag>) -> bool {
    t == Some(Tag::Integer) || t == Some(Tag::Float) || t == Some(Tag::Enumeration) || t == Some(Tag::Boolean)
        || t == Some(Tag::Command) || t == Some(Tag::Category) || t == Some(Tag::SwissKnife)
}

/// What reading the node element `head`, whose tag is `t`, from the reads `log` of `doc` with
/// `budget` events left gives, with the reads `log2` and the budget `budget2` after it.
pub open spec fn node_read(doc: Seq<char>, log: ReadLog, head: ElementHead, t: Tag, budget: nat, log2: ReadLog, budget2: nat, r: Result<NodeDecl, XmlError>) -> bool {
    match t {
        Tag::Integer => reg_read(doc, log, head, NodeKind::Integer, budget, log2, budget2, r),
        Tag::Float => reg_read(doc, log, head, NodeKind::Float, budget, log2, budget2, r),
        Tag::Enumeration => reg_read(doc, log, head, NodeKind::Enumeration, budget, log2, budget2, r),
        Tag::Boolean => reg_read(doc, log, head, NodeKind::Boolean, budget, log2, budget2, r),
        Tag::Command => cmd_read(doc, log, head, budget, log2, budget2, r),
        Tag::Category => cat_read(doc, log, head, budget, log2, budget2, r),
        _ => sk_read(doc, log, head, budget, log2, budget2, r),
    }
}

/// The reads and the budget after the node element `head` of a register kind.
pub open spec fn reg_after(doc: Seq<char>, log: ReadLog, head: ElementHead, kind: NodeKind, budget: nat) -> (ReadLog, nat) {
    match begin_spec(kind, head) {
        Err(_) => (log, budget),
        Ok(v) => {
            let (_e, l, b) = reg_run(doc, log, head.name@, kind, v, budget);
            (l, b)
        },
    }
}

/// The reads and the budget after the node element `head` whose tag is `t`.
pub open spec fn node_after(doc: Seq<char>, log: ReadLog, head: ElementHead, t: Tag, budget: nat) -> (ReadLog, nat) {
    match t {
        Tag::Integer => reg_after(doc, log, head, NodeKind::Integer, budget),
        Tag::Float => reg_after(doc, log, head, NodeKind::Float, budget),
        Tag::Enumeration => reg_after(doc, log, head, NodeKind::Enumeration, budget),
        Tag::Boolean => reg_after(doc, log, head, NodeKind::Boolean, budget),
        Tag::Command => match required_of(head, Tag::Name) {
            Err(_) => (log, budget),
            Ok(n) => {
                let (_e, l, b) = cmd_run(doc, log, head.name@, n, (None, None), budget);
                (l, b)
            },
        },
        Tag::Category => match required_of(head, Tag::Name) {
            Err(_) => (log, budget),
            Ok(n) => {
                let (_e, l, b) = cat_run(doc, log, head.name@, n, Seq::empty(), budget);
                (l, b)
            },
        },
        _ => match sk_begin(head) {
            Err(_) => (log, budget),
            Ok(v) => {
                let (_e, l, b) = sk_run(doc, log, head.name@, v, budget);
                (l, b)
            },
        },
    }
}

/// The reads and budget after a node element are those `node_after` gives.
pub proof fn lemma_node_after(doc: Seq<char>, log: ReadLog, head: ElementHead, t: Tag, budget: nat, log2: ReadLog, budget2: nat, r: Result<NodeDecl, XmlError>)
    requires
        node_read(doc, log, head, t, budget, log2, budget2, r),
    ensures
        node_after(doc, log, head, t, budget) == (log2, budget2),
{
}

/// A category written as an empty tag: named by its tag, with no children.
pub open spec fn category_empty_spec(h: ElementHead, r: Result<NodeDecl, XmlError>) -> bool {
    match required_of(h, Tag::Name) {
        Err(f) => fails(r, f),
        Ok(n) => r matches Ok(NodeDecl::Category { name, children }) && name@ == n && children@.len() == 0,
    }
}

/// What an empty tag `h` named `t` (a command or a category) declares.
pub open spec fn empty_read(h: ElementHead, t: Tag, r: Result<NodeDecl, XmlError>) -> bool {
    if t == Tag::Command {
        crate::xml_nodes::command_empty_spec(h, r)
    } else {
        category_empty_spec(h, r)
    }
}

/// What parsing the rest of `doc` gives, from the reads `log` on with `budget` events left,
/// the schema version `version` named so far and `count` nodes declared so far: the model
/// of the whole document, whose first `count` nodes are those declared before, or the first
/// error met.
///
/// A `RegisterDescription` tag names the version; a node element is read by the reader of
/// its kind and declares the node it gives, whose error ends the parse; an empty command or
/// category tag declares a node of its own; other elements are skipped; the end of the
/// document ends the parse.
pub open spec fn doc_gives(doc: Seq<char>, log: ReadLog, budget: nat, version: Seq<char>, count: nat, r: Result<XmlModel, XmlError>) -> bool
    decreases budget,
{
    if budget == 0 {
        fails(r, bound_fail())
    } else {
        let l2 = log.push(None);
        let b2 = (budget - 1) as nat;
        match xml_event(doc, log) {
            Err(e) => r == Err::<XmlModel, XmlError>(e),
            Ok(XmlEvent::Start(h)) => {
                let t = spec_tag_of(h.name@);
                if t == Some(Tag::RegisterDescription) {
                    match version_of(h) {
                        Err(f) => fails(r, f),
                        Ok(v) => doc_gives(doc, l2, b2, v, count, r),
                    }
                } else if node_tag(t) {
                    let (l3, b3) = node_after(doc, l2, h, t->Some_0, b2);
                    if b3 <= b2 {
                        match r {
                            Ok(m) => count < m.nodes@.len() && node_read(doc, l2, h, t->Some_0, b2, l3, b3, Ok(m.nodes@[count as int]))
                                && doc_gives(doc, l3, b3, version, count + 1, r),
                            Err(x) => node_read(doc, l2, h, t->Some_0, b2, l3, b3, Err(x)) || ((exists|n: NodeDecl|
                                #[trigger] node_read(doc, l2, h, t->Some_0, b2, l3, b3, Ok(n))) && doc_gives(doc, l3, b3, version, count + 1, r)),
                        }
                    } else {
                        false
                    }
                } else {
                    let (k, l3, b3) = skip_run(doc, l2, h.name@, b2, 1);
                    match k {
                        Ends::Closed(_) => if b3 <= b2 {
                            doc_gives(doc, l3, b3, version, count, r)
                        } else {
                            false
                        },
                        Ends::Reader(x) => r == Err::<XmlModel, XmlError>(x),
                        Ends::Refused(f) => fails(r, f),
                    }
                }
            },
            Ok(XmlEvent::Empty(h)) => {
                let t = spec_tag_of(h.name@);
                if t == Some(Tag::RegisterDescription) {
                    match version_of(h) {
                        Err(f) => fails(r, f),
                        Ok(v) => doc_gives(doc, l2, b2, v, count, r),
                    }
                } else if t == Some(Tag::Command) || t == Some(Tag::Category) {
                    match r {
                        Ok(m) => count < m.nodes@.len() && empty_read(h, t->Some_0, Ok(m.nodes@[count as int]))
                            && doc_gives(doc, l2, b2, version, count + 1, r),
                        Err(x) => empty_read(h, t->Some_0, Err(x)) || ((exists|n: NodeDecl| #[trigger] empty_read(h, t->Some_0, Ok(n)))
                            && doc_gives(doc, l2, b2, version, count + 1, r)),
                    }
                } else {
                    doc_gives(doc, l2, b2, version, count, r)
                }
            },
            Ok(XmlEvent::Eof) => r matches Ok(m) && m.version@ == version && m.nodes@.len() == count,
            Ok(_) => doc_gives(doc, l2, b2, version, count, r),
        }
    }
}

/// Whether the nodes of a result, if it is a model, begin with `nodes`.
pub open spec fn starts_with(r: Result<XmlModel, XmlError>, nodes: Seq<NodeDecl>) -> bool {
    r matches Ok(m) ==> nodes.len() <= m.nodes@.len() && m.nodes@.subrange(0, nodes.len() as int) == nodes
}

/// Read the node starting with `head`, named `t`, up to its end tag; `None` for an element
/// that declares no node.
fn parse_node<'a>(
    reader: &mut XmlReader<'a>,
    head: &ElementHead,
    t: Option<Tag>,
    budget: &mut usize,
) -> (r: Option<Result<NodeDecl, XmlError>>)
    ensures
        final(reader)@.0 == old(reader)@.0,
        *final(budget) <= *old(budget),
        r is None <==> !node_tag(t),
        r is None ==> final(reader)@ == old(reader)@ && *final(budget) == *old(budget),
        r matches Some(d) ==> node_read(old(reader)@.0, old(reader)@.1, *head, t->Some_0, *old(budget) as nat, final(reader)@.1, *final(budget) as nat, d),
{
    match t {
        Some(Tag::Integer) => Some(parse_integer(reader, head, budget)),
        Some(Tag::Float) => Some(parse_float(reader, head, budget)),
        Some(Tag::Enumeration) => Some(parse_enum(reader, head, budget)),
        Some(Tag::Boolean) => Some(parse_boolean(reader, head, budget)),
        Some(Tag::Command) => Some(parse_command(reader, head, budget)),
        Some(Tag::Category) => Some(parse_category(reader, head, budget)),
        Some(Tag::SwissKnife) => Some(parse_swissknife(reader, head, budget)),
        _ => None,
    }
}

/// Parse a GenICam XML document into an [`XmlModel`].
///
/// The parser only understands a practical subset of the schema. Unknown tags
/// are skipped which keeps the implementation forward compatible with richer
/// documents. The version stays `0.0.0` unless a `RegisterDescription` tag names one.
/// The result is what `doc_gives` says of the whole document.
pub fn parse(xml: &str) -> (r: Result<XmlModel, XmlError>)
    ensures
        doc_gives(xml@, Seq::empty(), doc_budget(xml.len() as nat), "0.0.0"@, 0, r),
{
    let mut reader = reader_for(xml);
    let mut budget: usize = if xml.len() < usize::MAX {
        xml.len() + 1
    } else {
        xml.len()
    };
    let mut version = String::from_str("0.0.0");
    let mut nodes: Vec<NodeDecl> = Vec::new();
    let ghost doc = xml@;
    let ghost b0 = budget as nat;
    assert(b0 == doc_budget(xml.len() as nat));
    loop
        invariant
            reader@.0 == doc,
            doc == xml@,
            b0 == doc_budget(xml.len() as nat),
            forall|q: Result<XmlModel, XmlError>|
                doc_gives(doc, reader@.1, budget as nat, version@, nodes@.len(), q) && starts_with(q, nodes@)
                    ==> #[trigger] doc_gives(doc, Seq::empty(), b0, "0.0.0"@, 0, q),
        decreases budget,
    {
        let ghost log = reader@.1;
        let ghost bud = budget as nat;
        let ghost ver = version@;
        let ghost ns = nodes@;
        if budget == 0 {
            let r = Err(budget_error());
            assert(doc_gives(doc, log, bud, ver, ns.len(), r));
            return r;
        }
        match next_counted(&mut reader, &mut budget) {
            Err(e) => {
                assert(doc_gives(doc, log, bud, ver, ns.len(), Err::<XmlModel, XmlError>(e)));
                return Err(e);
            },
            Ok(XmlEvent::Start(e)) => {
                let t = tag_of(e.name.as_slice());
                if t == Some(Tag::RegisterDescription) {
                    match schema_version(&e) {
                        Err(x) => {
                            assert(doc_gives(doc, log, bud, ver, ns.len(), Err::<XmlModel, XmlError>(x)));
                            return Err(x);
                        },
                        Ok(v) => {
                            version = v;
                            assert forall|q: Result<XmlModel, XmlError>|
                                doc_gives(doc, reader@.1, budget as nat, version@, nodes@.len(), q) && starts_with(q, nodes@)
                                    implies #[trigger] doc_gives(doc, Seq::empty(), b0, "0.0.0"@, 0, q) by {
                                assert(doc_gives(doc, log, bud, ver, ns.len(), q));
                            }
                        },
                    }
                } else {
                    let ghost l2 = reader@.1;
                    let ghost b2 = budget as nat;
                    match parse_node(&mut reader, &e, t, &mut budget) {
                        Some(Ok(n)) => {
                            proof {
                                lemma_node_after(doc, l2, e, t->Some_0, b2, reader@.1, budget as nat, Ok::<NodeDecl, XmlError>(n));
                            }
                            nodes.push(n);
                            assert forall|q: Result<XmlModel, XmlError>|
                                doc_gives(doc, reader@.1, budget as nat, version@, nodes@.len(), q) && starts_with(q, nodes@)
                                    implies #[trigger] doc_gives(doc, Seq::empty(), b0, "0.0.0"@, 0, q) by {
                                if q is Ok {
                                    let m = q->Ok_0;
                                    assert(m.nodes@.subrange(0, nodes@.len() as int)[ns.len() as int] == m.nodes@[ns.len() as int]);
                                    assert(m.nodes@[ns.len() as int] == n);
                                    assert(m.nodes@.subrange(0, ns.len() as int) =~= ns);
                                } else {
                                    assert(node_read(doc, l2, e, t->Some_0, b2, reader@.1, budget as nat, Ok::<NodeDecl, XmlError>(n)));
                                }
                                assert(doc_gives(doc, log, bud, ver, ns.len(), q));
                            }
                        },
                        Some(Err(x)) => {
                            proof {
                                lemma_node_after(doc, l2, e, t->Some_0, b2, reader@.1, budget as nat, Err::<NodeDecl, XmlError>(x));
                            }
                            assert(doc_gives(doc, log, bud, ver, ns.len(), Err::<XmlModel, XmlError>(x)));
                            return Err(x);
                        },
                        None => match skip_element(&mut reader, e.name.as_slice(), &mut budget) {
                            Err(x) => {
                                assert(doc_gives(doc, log, bud, ver, ns.len(), Err::<XmlModel, XmlError>(x)));
                                return Err(x);
                            },
                            Ok(()) => {
                                assert forall|q: Result<XmlModel, XmlError>|
                                    doc_gives(doc, reader@.1, budget as nat, version@, nodes@.len(), q) && starts_with(q, nodes@)
                                        implies #[trigger] doc_gives(doc, Seq::empty(), b0, "0.0.0"@, 0, q) by {
                                    assert(doc_gives(doc, log, bud, ver, ns.len(), q));
                                }
                            },
                        },
                    }
                }
            },
            Ok(XmlEvent::Empty(e)) => {
                let t = tag_of(e.name.as_slice());
                if t == Some(Tag::RegisterDescription) {
                    match schema_version(&e) {
                        Err(x) => {
                            assert(doc_gives(doc, log, bud, ver, ns.len(), Err::<XmlModel, XmlError>(x)));
                            return Err(x);
                        },
                        Ok(v) => {
                            version = v;
                            assert forall|q: Result<XmlModel, XmlError>|
                                doc_gives(doc, reader@.1, budget as nat, version@, nodes@.len(), q) && starts_with(q, nodes@)
                                    implies #[trigger] doc_gives(doc, Seq::empty(), b0, "0.0.0"@, 0, q) by {
                                assert(doc_gives(doc, log, bud, ver, ns.len(), q));
                            }
                        },
                    }
                } else if t == Some(Tag::Command) || t == Some(Tag::Category) {
                    let d = if t == Some(Tag::Command) {
                        parse_command_empty(&e)
                    } else {
                        parse_category_empty(&e)
                    };
                    assert(empty_read(e, t->Some_0, d));
                    match d {
                        Err(x) => {
                            assert(doc_gives(doc, log, bud, ver, ns.len(), Err::<XmlModel, XmlError>(x)));
                            return Err(x);
                        },
                        Ok(n) => {
                            nodes.push(n);
                            assert forall|q: Result<XmlModel, XmlError>|
                                doc_gives(doc, reader@.1, budget as nat, version@, nodes@.len(), q) && starts_with(q, nodes@)
                                    implies #[trigger] doc_gives(doc, Seq::empty(), b0, "0.0.0"@, 0, q) by {
                                if q is Ok {
                                    let m = q->Ok_0;
                                    assert(m.nodes@.subrange(0, nodes@.len() as int)[ns.len() as int] == m.nodes@[ns.len() as int]);
                                    assert(m.nodes@[ns.len() as int] == n);
                                    assert(m.nodes@.subrange(0, ns.len() as int) =~= ns);
                                } else {
                                    assert(empty_read(e, t->Some_0, Ok::<NodeDecl, XmlError>(n)));
                                }
                                assert(doc_gives(doc, log, bud, ver, ns.len(), q));
                            }
                        },
                    }
                } else {
                    assert forall|q: Result<XmlModel, XmlError>|
                        doc_gives(doc, reader@.1, budget as nat, version@, nodes@.len(), q) && starts_with(q, nodes@)
                            implies #[trigger] doc_gives(doc, Seq::empty(), b0, "0.0.0"@, 0, q) by {
                        assert(doc_gives(doc, log, bud, ver, ns.len(), q));
                    }
                }
            },
            Ok(XmlEvent::Eof) => {
                let r = Ok(XmlModel { version, nodes });
                assert(r->Ok_0.nodes@.subrange(0, ns.len() as int) =~= ns);
                assert(doc_gives(doc, log, bud, ver, ns.len(), r));
                return r;
            },
            _ => {
                assert forall|q: Result<XmlModel, XmlError>|
                    doc_gives(doc, reader@.1, budget as nat, version@, nodes@.len(), q) && starts_with(q, nodes@)
                        implies #[trigger] doc_gives(doc, Seq::empty(), b0, "0.0.0"@, 0, q) by {
                    assert(doc_gives(doc, log, bud, ver, ns.len(), q));
                }
            },
        }
    }
}

} // verus!
