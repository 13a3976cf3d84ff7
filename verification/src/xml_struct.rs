//! Reading a `<StructReg>` element: one register whose `<StructEntry>` children each name a
//! bit field of it, each becoming an integer node of its own.
use vstd::prelude::*;
use crate::text::{bytes_eq, trimmed, uppered};
use crate::xml_events::{
    bound_fail, ends_as, event_bound_msg, lemma_skip_budget, next_counted, read_text, skip_element, skip_run, xml_event, xml_text,
    ElementHead, Ends, ReadLog, XmlEvent, XmlReader,
};
use crate::xml_model::{
    spec_access_mode, spec_byte_order, unknown_access_msg, AccessMode, Addressing, BitField, ByteOrder, XmlError,
};
use crate::xml_nodes::{
    fails, invalid, num_u64, required, required_of, spec_tag_of, tag_of, tb, u64_of, Fail, NodeDecl, Tag,
};

verus! {

/// The bytes of `StructEntry`.
pub open spec fn struct_entry_word() -> Seq<u8> {
    seq![83u8, 116, 114, 117, 99, 116, 69, 110, 116, 114, 121]
}

/// Which bit position a child of a struct entry names: `LSB` (0), `MSB` (1) or `Bit` (2).
pub open spec fn position_of(n: Seq<u8>) -> Option<u8> {
    if n == seq![76u8, 83, 66] {
        Some(0u8)
    } else if n == seq![77u8, 83, 66] {
        Some(1u8)
    } else if n == seq![66u8, 105, 116] {
        Some(2u8)
    } else {
        None
    }
}

/// A bit position written as `t`: a number, kept in its low 16 bits.
pub open spec fn position_value(t: Seq<char>) -> Result<u16, Fail> {
    match num_u64(tb(t)) {
        Err(f) => Err(f),
        Ok(n) => Ok(n as u16),
    }
}

/// The positions `(LSB, MSB, Bit)` read so far, with position `w` set to `n`.
pub open spec fn set_position(p: (Option<u16>, Option<u16>, Option<u16>), w: u8, n: u16) -> (
    Option<u16>,
    Option<u16>,
    Option<u16>,
) {
    if w == 0 {
        (Some(n), p.1, p.2)
    } else if w == 1 {
        (p.0, Some(n), p.2)
    } else {
        (p.0, p.1, Some(n))
    }
}

/// Reading the children of the struct entry named `name` whose tag is named `hname`, from
/// the reads `log` of `doc` on, with the positions `p` read so far and `budget` events left:
/// how it ends, the reads then and the budget left.
pub open spec fn field_run(doc: Seq<char>, log: ReadLog, hname: Seq<u8>, name: Seq<char>, p: (Option<u16>, Option<u16>, Option<u16>), budget: nat) -> (
    Ends<(Option<u16>, Option<u16>, Option<u16>)>,
    ReadLog,
    nat,
)
    decreases budget,
{
    if budget == 0 {
        (Ends::Refused(bound_fail()), log, budget)
    } else {
        let l2 = log.push(None);
        let b2 = (budget - 1) as nat;
        match xml_event(doc, log) {
            Err(e) => (Ends::Reader(e), l2, b2),
            Ok(XmlEvent::Start(e)) => if position_of(e.name@) is Some {
                let l3 = l2.push(Some(e.name@));
                match xml_text(doc, l2, e.name@) {
                    Err(x) => (Ends::Reader(x), l3, b2),
                    Ok(x) => match position_value(x@) {
                        Err(f) => (Ends::Refused(f), l3, b2),
                        Ok(n) => field_run(doc, l3, hname, name, set_position(p, position_of(e.name@)->Some_0, n), b2),
                    },
                }
            } else {
                let (k, l3, b3) = skip_run(doc, l2, e.name@, b2, 1);
                match k {
                    Ends::Closed(_) => {
                        proof {
                            lemma_skip_budget(doc, l2, e.name@, b2, 1);
                        }
                        field_run(doc, l3, hname, name, p, b3)
                    },
                    Ends::Reader(x) => (Ends::Reader(x), l3, b3),
                    Ends::Refused(f) => (Ends::Refused(f), l3, b3),
                }
            },
            Ok(XmlEvent::End(n)) => if n@ == hname {
                (Ends::Closed(p), l2, b2)
            } else {
                field_run(doc, l2, hname, name, p, b2)
            },
            Ok(XmlEvent::Eof) => (Ends::Refused(Fail::Invalid("unterminated StructEntry "@ + name + ""@)), l2, b2),
            Ok(_) => field_run(doc, l2, hname, name, p, b2),
        }
    }
}

/// The bit field of the struct entry `name` with the positions read, in the byte order
/// `order`: a single `Bit`, or the bits from the lower to the higher of `LSB` and `MSB`.
pub open spec fn field_of_entry(name: Seq<char>, p: (Option<u16>, Option<u16>, Option<u16>), order: ByteOrder) -> Result<
    BitField,
    Fail,
> {
    match p.2 {
        Some(b) => Ok(BitField { bit_offset: b, bit_length: 1, byte_order: order }),
        None => match (p.0, p.1) {
            (Some(l), Some(m)) => {
                let low = if l <= m { l } else { m };
                let high = if l <= m { m } else { l };
                if high - low + 1 <= u16::MAX {
                    Ok(BitField { bit_offset: low, bit_length: (high - low + 1) as u16, byte_order: order })
                } else {
                    Err(Fail::Invalid("StructEntry "@ + name + " spans more bits than a field holds"@))
                }
            },
            _ => Err(Fail::Invalid("StructEntry "@ + name + " needs LSB+MSB or Bit"@)),
        },
    }
}

/// What reading the struct entry with tag `head` in the byte order `order` gives: its name and
/// bit field, or the error.
pub open spec fn field_read(doc: Seq<char>, log: ReadLog, head: ElementHead, order: ByteOrder, budget: nat, log2: ReadLog, budget2: nat, r: Result<(String, BitField), XmlError>) -> bool {
    match required_of(head, Tag::Name) {
        Err(f) => fails(r, f) && log2 == log && budget2 == budget,
        Ok(n) => {
            let (e, l, b) = field_run(doc, log, head.name@, n, (None, None, None), budget);
            log2 == l && budget2 == b && match e {
                Ends::Closed(p) => match field_of_entry(n, p, order) {
                    Err(f) => fails(r, f),
                    Ok(bf) => r matches Ok((nm, f)) && nm@ == n && f == bf,
                },
                _ => r is Err && ends_as(e, r),
            }
        },
    }
}

/// The error returned when the reader yields more events than the document has bytes.
fn budget_error() -> (e: XmlError)
    ensures
        e matches XmlError::Invalid(m) && m@ == event_bound_msg(),
{
    XmlError::Invalid(String::from_str("more XML events than bytes in the document"))
}

/// Which position a child tag names, as `position_of` says.
fn position(n: &[u8]) -> (w: Option<u8>)
    ensures
        w == position_of(n@),
{
    let lsb: [u8; 3] = [76u8, 83, 66];
    let msb: [u8; 3] = [77u8, 83, 66];
    let bit: [u8; 3] = [66u8, 105, 116];
    assert(lsb@ =~= seq![76u8, 83, 66]);
    assert(msb@ =~= seq![77u8, 83, 66]);
    assert(bit@ =~= seq![66u8, 105, 116]);
    if bytes_eq(n, lsb.as_slice()) {
        Some(0)
    } else if bytes_eq(n, msb.as_slice()) {
        Some(1)
    } else if bytes_eq(n, bit.as_slice()) {
        Some(2)
    } else {
        None
    }
}

/// Read one `<StructEntry>`, up to its end tag: its name and its bit field in `order`.
fn parse_struct_entry<'a>(
    reader: &mut XmlReader<'a>,
    head: &ElementHead,
    order: ByteOrder,
    budget: &mut usize,
) -> (r: Result<(String, BitField), XmlError>)
    ensures
        final(reader)@.0 == old(reader)@.0,
        field_read(old(reader)@.0, old(reader)@.1, *head, order, *old(budget) as nat, final(reader)@.1, *final(budget) as nat, r),
        *final(budget) <= *old(budget),
{
    let name = match required(head, Tag::Name) {
        Err(e) => return Err(e),
        Ok(n) => n,
    };
    let ghost nv = name@;
    let ghost doc = reader@.0;
    let mut p: (Option<u16>, Option<u16>, Option<u16>) = (None, None, None);
    let ghost run = field_run(doc, reader@.1, head.name@, nv, p, *budget as nat);
    loop
        invariant
            run == field_run(doc, old(reader)@.1, head.name@, nv, (None, None, None), *old(budget) as nat),
            run == field_run(doc, reader@.1, head.name@, nv, p, *budget as nat),
            reader@.0 == doc,
            doc == old(reader)@.0,
            *budget <= *old(budget),
            name@ == nv,
            required_of(*head, Tag::Name) == Ok::<Seq<char>, Fail>(nv),
        decreases *budget,
    {
        if *budget == 0 {
            return Err(budget_error());
        }
        match next_counted(reader, budget) {
            Err(e) => return Err(e),
            Ok(XmlEvent::Start(e)) => {
                match position(e.name.as_slice()) {
                    Some(w) => {
                        let text = match read_text(reader, e.name.as_slice()) {
                            Err(x) => return Err(x),
                            Ok(x) => x,
                        };
                        let n = match u64_of(text.as_str()) {
                            Err(x) => return Err(x),
                            Ok(n) => n as u16,
                        };
                        p = if w == 0 {
                            (Some(n), p.1, p.2)
                        } else if w == 1 {
                            (p.0, Some(n), p.2)
                        } else {
                            (p.0, p.1, Some(n))
                        };
                    },
                    None => match skip_element(reader, e.name.as_slice(), budget) {
                        Err(x) => return Err(x),
                        Ok(()) => {},
                    },
                }
            },
            Ok(XmlEvent::End(n)) => {
                if bytes_eq(n.as_slice(), head.name.as_slice()) {
                    return match p.2 {
                        Some(b) => Ok((name, BitField { bit_offset: b, bit_length: 1, byte_order: order })),
                        None => match (p.0, p.1) {
                            (Some(l), Some(m)) => {
                                let low = if l <= m { l } else { m };
                                let high = if l <= m { m } else { l };
                                if high - low < u16::MAX {
                                    Ok((name, BitField { bit_offset: low, bit_length: high - low + 1, byte_order: order }))
                                } else {
                                    Err(invalid("StructEntry ", name.as_str(), " spans more bits than a field holds"))
                                }
                            },
                            _ => Err(invalid("StructEntry ", name.as_str(), " needs LSB+MSB or Bit")),
                        },
                    };
                }
            },
            Ok(XmlEvent::Eof) => {
                return Err(invalid("unterminated StructEntry ", name.as_str(), ""));
            },
            _ => {},
        }
    }
}

/// What is read of a struct register so far: its address, length, access mode and byte
/// order, and the entries with their bit fields.
pub struct StructParts {
    pub address: Option<u64>,
    pub length: u32,
    pub access: AccessMode,
    pub order: ByteOrder,
    pub entries: Seq<(Seq<char>, BitField)>,
}

/// The parts before any child: no address, four bytes, read-write, little-endian.
pub open spec fn struct_start() -> StructParts {
    StructParts { address: None, length: 4, access: AccessMode::RW, order: ByteOrder::Little, entries: Seq::empty() }
}

/// What a child element `t` of the struct register read as the text `x` does: `<Address>`
/// sets the address, `<Length>` the length (its low 32 bits), `<AccessMode>` the access mode,
/// `<Endianness>` the byte order of the entries that follow when it names one.
pub open spec fn struct_step(st: StructParts, t: Tag, x: Seq<char>) -> Result<StructParts, Fail> {
    if t == Tag::Address {
        match num_u64(tb(x)) {
            Err(f) => Err(f),
            Ok(a) => Ok(StructParts { address: Some(a), ..st }),
        }
    } else if t == Tag::Length {
        match num_u64(tb(x)) {
            Err(f) => Err(f),
            Ok(n) => Ok(StructParts { length: n as u32, ..st }),
        }
    } else if t == Tag::AccessMode {
        match spec_access_mode(tb(x)) {
            Some(m) => Ok(StructParts { access: m, ..st }),
            None => Err(Fail::Invalid(unknown_access_msg(uppered(trimmed(tb(x)))))),
        }
    } else {
        match spec_byte_order(tb(x)) {
            Some(o) => Ok(StructParts { order: o, ..st }),
            None => Ok(st),
        }
    }
}

/// The children of a struct register read as text.
pub open spec fn struct_tag(t: Option<Tag>) -> bool {
    t == Some(Tag::Address) || t == Some(Tag::Length) || t == Some(Tag::AccessMode) || t == Some(Tag::Endianness) || t
        == Some(Tag::Endianess)
}

/// Reading the children of the struct register whose tag is named `hname`, from the reads
/// `log` of `doc` on, with the parts `st` read so far and `budget` events left: how it ends,
/// the reads then and the budget left.
pub open spec fn struct_run(doc: Seq<char>, log: ReadLog, hname: Seq<u8>, st: StructParts, budget: nat) -> (
    Ends<StructParts>,
    ReadLog,
    nat,
)
    decreases budget,
{
    if budget == 0 {
        (Ends::Refused(bound_fail()), log, budget)
    } else {
        let l2 = log.push(None);
        let b2 = (budget - 1) as nat;
        match xml_event(doc, log) {
            Err(e) => (Ends::Reader(e), l2, b2),
            Ok(XmlEvent::Start(e)) => {
                let t = spec_tag_of(e.name@);
                if struct_tag(t) {
                    let l3 = l2.push(Some(e.name@));
                    match xml_text(doc, l2, e.name@) {
                        Err(x) => (Ends::Reader(x), l3, b2),
                        Ok(x) => match struct_step(st, t->Some_0, x@) {
                            Err(f) => (Ends::Refused(f), l3, b2),
                            Ok(s2) => struct_run(doc, l3, hname, s2, b2),
                        },
                    }
                } else if e.name@ == struct_entry_word() {
                    match required_of(e, Tag::Name) {
                        Err(f) => (Ends::Refused(f), l2, b2),
                        Ok(n) => {
                            let (k, l3, b3) = field_run(doc, l2, e.name@, n, (None, None, None), b2);
                            match k {
                                Ends::Closed(p) => match field_of_entry(n, p, st.order) {
                                    Err(f) => (Ends::Refused(f), l3, b3),
                                    Ok(bf) => if b3 <= b2 {
                                        struct_run(doc, l3, hname, StructParts { entries: st.entries.push((n, bf)), ..st }, b3)
                                    } else {
                                        (Ends::Refused(bound_fail()), l3, b3)
                                    },
                                },
                                Ends::Reader(x) => (Ends::Reader(x), l3, b3),
                                Ends::Refused(f) => (Ends::Refused(f), l3, b3),
                            }
                        },
                    }
                } else {
                    let (k, l3, b3) = skip_run(doc, l2, e.name@, b2, 1);
                    match k {
                        Ends::Closed(_) => {
                            proof {
                                lemma_skip_budget(doc, l2, e.name@, b2, 1);
                            }
                            struct_run(doc, l3, hname, st, b3)
                        },
                        Ends::Reader(x) => (Ends::Reader(x), l3, b3),
                        Ends::Refused(f) => (Ends::Refused(f), l3, b3),
                    }
                }
            },
            Ok(XmlEvent::End(n)) => if n@ == hname {
                (Ends::Closed(st), l2, b2)
            } else {
                struct_run(doc, l2, hname, st, b2)
            },
            Ok(XmlEvent::Eof) => (Ends::Refused(Fail::Invalid("unterminated StructReg"@)), l2, b2),
            Ok(_) => struct_run(doc, l2, hname, st, b2),
        }
    }
}

/// Whether `d` is the integer node that entry `k` of the struct register `st` declares: the
/// entry's name and bit field, the register's address (zero when none was given), length and
/// access mode, and no limits, increment, unit or selectors.
pub open spec fn struct_decl(st: StructParts, k: int, d: NodeDecl) -> bool {
    d matches NodeDecl::Integer { name, addressing, len, access, min, max, inc, unit, bitfield, selectors, selected_if }
        && name@ == st.entries[k].0 && addressing == (Addressing::Fixed {
        address: if st.address is Some { st.address->Some_0 } else { 0u64 },
        len: st.length,
    }) && len == st.length && access == st.access && min == i64::MIN && max == i64::MAX && inc is None && unit is None
        && bitfield == Some(st.entries[k].1) && selectors@.len() == 0 && selected_if@.len() == 0
}

/// What reading the struct register with tag `head` from the reads `log` of `doc` gives: one
/// integer node per entry, in order, or the error that ended the reading.
pub open spec fn struct_read(doc: Seq<char>, log: ReadLog, head: ElementHead, budget: nat, log2: ReadLog, budget2: nat, r: Result<Vec<NodeDecl>, XmlError>) -> bool {
    let (e, l, b) = struct_run(doc, log, head.name@, struct_start(), budget);
    log2 == l && budget2 == b && match e {
        Ends::Closed(st) => r matches Ok(v) && v@.len() == st.entries.len() && forall|k: int|
            0 <= k < v@.len() ==> #[trigger] struct_decl(st, k, v@[k]),
        _ => r is Err && ends_as(e, r),
    }
}

/// Read a `<StructReg>` element, up to its end tag: one integer node per `<StructEntry>`,
/// sharing the register's address, length and access mode, each with the bit field its
/// entry names, as `struct_read` says.
pub fn parse_struct_reg<'a>(reader: &mut XmlReader<'a>, head: &ElementHead, budget: &mut usize) -> (r: Result<
    Vec<NodeDecl>,
    XmlError,
>)
    ensures
        final(reader)@.0 == old(reader)@.0,
        struct_read(old(reader)@.0, old(reader)@.1, *head, *old(budget) as nat, final(reader)@.1, *final(budget) as nat, r),
        *final(budget) <= *old(budget),
{
    let mut address: Option<u64> = None;
    let mut length: u32 = 4;
    let mut access = AccessMode::RW;
    let mut order = ByteOrder::Little;
    let mut entries: Vec<(String, BitField)> = Vec::new();
    let ghost doc = reader@.0;
    let ghost run = struct_run(doc, reader@.1, head.name@, struct_start(), *budget as nat);
    let entry_key: [u8; 11] = [83u8, 116, 114, 117, 99, 116, 69, 110, 116, 114, 121];
    assert(entry_key@ =~= struct_entry_word());
    assert(entries@.map_values(|p: (String, BitField)| (p.0@, p.1)) =~= Seq::<(Seq<char>, BitField)>::empty());
    loop
        invariant
            run == struct_run(doc, old(reader)@.1, head.name@, struct_start(), *old(budget) as nat),
            run == struct_run(
                doc,
                reader@.1,
                head.name@,
                StructParts {
                    address,
                    length,
                    access,
                    order,
                    entries: entries@.map_values(|p: (String, BitField)| (p.0@, p.1)),
                },
                *budget as nat,
            ),
            reader@.0 == doc,
            doc == old(reader)@.0,
            *budget <= *old(budget),
            entry_key@ == struct_entry_word(),
        decreases *budget,
    {
        let ghost cur = StructParts {
            address,
            length,
            access,
            order,
            entries: entries@.map_values(|p: (String, BitField)| (p.0@, p.1)),
        };
        if *budget == 0 {
            return Err(budget_error());
        }
        match next_counted(reader, budget) {
            Err(e) => return Err(e),
            Ok(XmlEvent::Start(e)) => {
                let t = tag_of(e.name.as_slice());
                if t == Some(Tag::Address) || t == Some(Tag::Length) || t == Some(Tag::AccessMode) || t == Some(
                    Tag::Endianness,
                ) || t == Some(Tag::Endianess) {
                    let text = match read_text(reader, e.name.as_slice()) {
                        Err(x) => return Err(x),
                        Ok(x) => x,
                    };
                    if t == Some(Tag::Address) {
                        match u64_of(text.as_str()) {
                            Err(x) => return Err(x),
                            Ok(a) => address = Some(a),
                        }
                    } else if t == Some(Tag::Length) {
                        match u64_of(text.as_str()) {
                            Err(x) => return Err(x),
                            Ok(n) => length = n as u32,
                        }
                    } else if t == Some(Tag::AccessMode) {
                        match AccessMode::parse(text.as_str()) {
                            Err(x) => return Err(x),
                            Ok(m) => access = m,
                        }
                    } else {
                        match ByteOrder::parse(text.as_str()) {
                            Some(o) => order = o,
                            None => {},
                        }
                    }
                } else if bytes_eq(e.name.as_slice(), entry_key.as_slice()) {
                    let (n, bf) = match parse_struct_entry(reader, &e, order, budget) {
                        Err(x) => return Err(x),
                        Ok(p) => p,
                    };
                    let ghost before = entries@;
                    let ghost nv = n@;
                    entries.push((n, bf));
                    assert(entries@.map_values(|p: (String, BitField)| (p.0@, p.1)) =~= before.map_values(
                        |p: (String, BitField)| (p.0@, p.1),
                    ).push((nv, bf)));
                } else {
                    match skip_element(reader, e.name.as_slice(), budget) {
                        Err(x) => return Err(x),
                        Ok(()) => {},
                    }
                }
            },
            Ok(XmlEvent::End(n)) => {
                if bytes_eq(n.as_slice(), head.name.as_slice()) {
                    let addr = match address {
                        Some(a) => a,
                        None => 0,
                    };
                    let mut nodes: Vec<NodeDecl> = Vec::new();
                    let mut k: usize = 0;
                    while k < entries.len()
                        invariant
                            k <= entries@.len(),
                            nodes@.len() == k,
                            cur.entries == entries@.map_values(|p: (String, BitField)| (p.0@, p.1)),
                            cur.address == address,
                            cur.length == length,
                            cur.access == access,
                            addr == (if address is Some { address->Some_0 } else { 0u64 }),
                            forall|j: int| 0 <= j < k ==> #[trigger] struct_decl(cur, j, nodes@[j]),
                        decreases entries@.len() - k,
                    {
                        let name = entries[k].0.clone();
                        let bf = entries[k].1;
                        nodes.push(
                            NodeDecl::Integer {
                                name,
                                addressing: Addressing::Fixed { address: addr, len: length },
                                len: length,
                                access,
                                min: i64::MIN,
                                max: i64::MAX,
                                inc: None,
                                unit: None,
                                bitfield: Some(bf),
                                selectors: Vec::new(),
                                selected_if: Vec::new(),
                            },
                        );
                        k = k + 1;
                    }
                    return Ok(nodes);
                }
            },
            Ok(XmlEvent::Eof) => {
                return Err(XmlError::Invalid(String::from_str("unterminated StructReg")));
            },
            _ => {},
        }
    }
}

} // verus!
