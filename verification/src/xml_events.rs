//! Reading an XML document as a stream of elements: the events the node parsers act on,
//! attribute lookup, element text and skipping, and the minimal document summary.
use vstd::prelude::*;
use vstd::utf8::encode_utf8;
use crate::text::{bytes_eq, lossy_string, trim, trimmed, utf8_lossy};
use crate::xml_model::{extract_schema_version, version_text, MinimalXmlInfo, XmlError};
use crate::xml_nodes::{fail_of, fails, texts, Fail};
use crate::builders::opt_view;

verus! {

/// An XML reader over a borrowed document.
#[verifier::external_type_specification]
#[verifier::external_body]
#[verifier::reject_recursive_types(R)]
pub struct ExXmlReader<R>(quick_xml::Reader<R>);

/// An XML start or empty-element tag.
#[verifier::external_type_specification]
#[verifier::external_body]
pub struct ExBytesStart<'a>(quick_xml::events::BytesStart<'a>);

/// One attribute of a tag: its name, and its value with entities replaced or why that failed.
#[derive(Debug)]
pub struct Attr {
    pub key: Vec<u8>,
    pub value: Result<String, String>,
}

/// The name and attributes of a start or empty-element tag; an attribute that could not be
/// read is the text of the error.
#[derive(Debug)]
pub struct ElementHead {
    pub name: Vec<u8>,
    pub attrs: Vec<Result<Attr, String>>,
}

/// The events the parsers act on.
#[derive(Debug)]
pub enum XmlEvent {
    Start(ElementHead),
    Empty(ElementHead),
    End(Vec<u8>),
    Eof,
    /// Text, comments, declarations and the like.
    Other,
}

/// What has been read from a document so far: `None` for an event, `Some(end)` for the
/// raw text up to the end tag named `end`.
pub type ReadLog = Seq<Option<Seq<u8>>>;

/// An XML reader over a document, with the document and the reads made so far. It is made
/// by `reader_for` and moved on only by `next_event` and `read_text`, which log each read.
pub struct XmlReader<'a> {
    reader: quick_xml::Reader<&'a [u8]>,
    /// The document.
    doc: Ghost<Seq<char>>,
    /// The reads made so far.
    log: Ghost<ReadLog>,
}

impl<'a> View for XmlReader<'a> {
    type V = (Seq<char>, ReadLog);

    closed spec fn view(&self) -> (Seq<char>, ReadLog) {
        (self.doc@, self.log@)
    }
}

/// The event that `Reader::read_event` gives, on a reader made by `reader_for` over `doc`,
/// after the reads `log`. quick-xml reads the document by itself, so this is a function of
/// the document and of the reads made before.
pub uninterp spec fn xml_event(doc: Seq<char>, log: ReadLog) -> Result<XmlEvent, XmlError>;

/// The text that `Reader::read_text` gives for the end tag `end`, on a reader made by
/// `reader_for` over `doc`, after the reads `log`.
pub uninterp spec fn xml_text(doc: Seq<char>, log: ReadLog, end: Seq<u8>) -> Result<String, XmlError>;

/// Creates a quick-xml reader with `Reader::from_str` and turns on trimming of whitespace
/// around text.
#[verifier::external_body]
fn quick_reader<'a>(xml: &'a str) -> (r: quick_xml::Reader<&'a [u8]>) {
    let mut reader = quick_xml::Reader::from_str(xml);
    reader.config_mut().trim_text(true);
    reader
}

/// A reader over `xml` that has read nothing yet.
pub fn reader_for<'a>(xml: &'a str) -> (r: XmlReader<'a>)
    ensures
        r@ == (xml@, Seq::<Option<Seq<u8>>>::empty()),
{
    XmlReader { reader: quick_reader(xml), doc: Ghost(xml@), log: Ghost(Seq::empty()) }
}

/// Converts a tag with `BytesStart::name` and `BytesStart::attributes`; each attribute value
/// goes through `Attribute::unescape_value`.
#[verifier::external_body]
fn head_of(e: &quick_xml::events::BytesStart<'_>) -> (h: ElementHead) {
    let mut attrs = Vec::new();
    for a in e.attributes() {
        attrs.push(match a {
            Ok(a) => Ok(Attr {
                key: a.key.as_ref().to_vec(),
                value: a.unescape_value().map(|v| v.into_owned()).map_err(|x| x.to_string()),
            }),
            Err(x) => Err(x.to_string()),
        });
    }
    ElementHead { name: e.name().as_ref().to_vec(), attrs }
}

/// The next event of the reader, from `Reader::read_event`; a reading error becomes
/// `XmlError::Xml` with its text. The event is `xml_event` of the document and the reads
/// before, and the read is logged.
#[verifier::external_body]
pub fn next_event<'a>(reader: &mut XmlReader<'a>) -> (r: Result<XmlEvent, XmlError>)
    ensures
        r == xml_event(old(reader)@.0, old(reader)@.1),
        final(reader)@ == (old(reader)@.0, old(reader)@.1.push(None)),
{
    match reader.reader.read_event() {
        Ok(quick_xml::events::Event::Start(e)) => Ok(XmlEvent::Start(head_of(&e))),
        Ok(quick_xml::events::Event::Empty(e)) => Ok(XmlEvent::Empty(head_of(&e))),
        Ok(quick_xml::events::Event::End(e)) => Ok(XmlEvent::End(e.name().as_ref().to_vec())),
        Ok(quick_xml::events::Event::Eof) => Ok(XmlEvent::Eof),
        Ok(_) => Ok(XmlEvent::Other),
        Err(err) => Err(XmlError::Xml(err.to_string())),
    }
}

/// The raw content up to the end tag named `end`, from `Reader::read_text`; an error
/// becomes `XmlError::Xml` with its text. The text is `xml_text` of the document, the reads
/// before and `end`, and the read is logged.
#[verifier::external_body]
pub fn read_text<'a>(reader: &mut XmlReader<'a>, end: &[u8]) -> (r: Result<String, XmlError>)
    ensures
        r == xml_text(old(reader)@.0, old(reader)@.1, end@),
        final(reader)@ == (old(reader)@.0, old(reader)@.1.push(Some(end@))),
{
    reader.reader.read_text(quick_xml::name::QName(end)).map(|t| t.into_owned()).map_err(
        |err| XmlError::Xml(err.to_string()),
    )
}

// ---------------------------------------------------------------------------
// Attributes
// ---------------------------------------------------------------------------

/// The first attribute named `name` from index `i` on: its value, why reading it failed,
/// or nothing; an unreadable attribute met before it ends the search.
pub open spec fn attr_scan(attrs: Seq<Result<Attr, String>>, name: Seq<u8>, i: int) -> Result<
    Option<Seq<char>>,
    Seq<char>,
>
    decreases attrs.len() - i,
{
    if i >= attrs.len() || i < 0 {
        Ok(None)
    } else {
        match attrs[i] {
            Err(m) => Err(m@),
            Ok(a) => if a.key@ == name {
                match a.value {
                    Err(m) => Err(m@),
                    Ok(v) => Ok(Some(v@)),
                }
            } else {
                attr_scan(attrs, name, i + 1)
            },
        }
    }
}

/// The value of attribute `name` as the parsers see it: trimmed, `None` when absent or blank,
/// or the text of the error met while looking for it.
pub open spec fn attr_text(h: ElementHead, name: Seq<u8>) -> Result<Option<Seq<char>>, Seq<char>> {
    match attr_scan(h.attrs@, name, 0) {
        Err(m) => Err(m),
        Ok(None) => Ok(None),
        Ok(Some(v)) => {
            let t = trimmed(encode_utf8(v));
            if t.len() == 0 {
                Ok(None)
            } else {
                Ok(Some(utf8_lossy(t)))
            }
        },
    }
}

/// Whether `r` is what the lookup `a` of an attribute gives.
pub open spec fn is_attr_result(a: Result<Option<Seq<char>>, Seq<char>>, r: Result<Option<String>, XmlError>) -> bool {
    match a {
        Err(m) => r matches Err(XmlError::Xml(e)) && e@ == m,
        Ok(None) => r matches Ok(None),
        Ok(Some(t)) => r matches Ok(Some(s)) && s@ == t,
    }
}

/// Extract an optional attribute value: trimmed, `None` when absent or blank.
pub fn attribute_value(event: &ElementHead, name: &[u8]) -> (r: Result<Option<String>, XmlError>)
    ensures
        is_attr_result(attr_text(*event, name@), r),
{
    let ghost attrs = event.attrs@;
    let mut i: usize = 0;
    while i < event.attrs.len()
        invariant
            attrs == event.attrs@,
            i <= attrs.len(),
            attr_scan(attrs, name@, 0) == attr_scan(attrs, name@, i as int),
        decreases attrs.len() - i,
    {
        match &event.attrs[i] {
            Err(m) => {
                return Err(XmlError::Xml(m.clone()));
            },
            Ok(a) => {
                if bytes_eq(a.key.as_slice(), name) {
                    match &a.value {
                        Err(m) => {
                            return Err(XmlError::Xml(m.clone()));
                        },
                        Ok(v) => {
                            let t = trim(v.as_str().as_bytes());
                            if t.len() == 0 {
                                return Ok(None);
                            } else {
                                return Ok(Some(lossy_string(t)));
                            }
                        },
                    }
                }
            },
        }
        i = i + 1;
    }
    Ok(None)
}

/// Message of the error for a missing required attribute.
pub open spec fn missing_attr_msg(name: Seq<u8>) -> Seq<char> {
    "missing attribute "@ + utf8_lossy(name)
}

/// Extract a required attribute value.
pub fn attribute_value_required(event: &ElementHead, name: &[u8]) -> (r: Result<String, XmlError>)
    ensures
        match attr_text(*event, name@) {
            Err(m) => r matches Err(XmlError::Xml(e)) && e@ == m,
            Ok(None) => r matches Err(XmlError::Invalid(e)) && e@ == missing_attr_msg(name@),
            Ok(Some(t)) => r matches Ok(s) && s@ == t,
        },
{
    match attribute_value(event, name) {
        Err(e) => Err(e),
        Ok(Some(v)) => Ok(v),
        Ok(None) => {
            let mut m = String::from_str("missing attribute ");
            let n = lossy_string(name);
            m.append(n.as_str());
            Err(XmlError::Invalid(m))
        },
    }
}

// ---------------------------------------------------------------------------
// Reading with a bound
// ---------------------------------------------------------------------------

/// Message of the error returned if a reader ever yields more events than its bound.
pub open spec fn event_bound_msg() -> Seq<char> {
    "more XML events than bytes in the document"@
}

/// The next event, counted against the remaining event budget.
pub fn next_counted<'a>(reader: &mut XmlReader<'a>, budget: &mut usize) -> (r: Result<
    XmlEvent,
    XmlError,
>)
    ensures
        *old(budget) == 0 ==> (r matches Err(XmlError::Invalid(m)) && m@ == event_bound_msg())
            && *final(budget) == 0 && final(reader)@ == old(reader)@,
        *old(budget) > 0 ==> *final(budget) == *old(budget) - 1 && r == xml_event(old(reader)@.0, old(reader)@.1)
            && final(reader)@ == (old(reader)@.0, old(reader)@.1.push(None)),
{
    if *budget == 0 {
        return Err(XmlError::Invalid(String::from_str("more XML events than bytes in the document")));
    }
    *budget = *budget - 1;
    next_event(reader)
}

/// How reading an element ends: with an error of the reader, refused with a message, or at
/// its end tag with what was read of it.
pub enum Ends<T> {
    Reader(XmlError),
    Refused(Fail),
    Closed(T),
}

/// Whether `r` is the error an ending other than `Closed` gives.
pub open spec fn ends_as<T, U>(e: Ends<T>, r: Result<U, XmlError>) -> bool {
    match e {
        Ends::Reader(x) => r == Err::<U, XmlError>(x),
        Ends::Refused(f) => fails(r, f),
        Ends::Closed(_) => true,
    }
}

/// The refusal when the event budget runs out.
pub open spec fn bound_fail() -> Fail {
    Fail::Invalid(event_bound_msg())
}

/// Skipping events of `doc` after the reads `log`, `depth` elements deep inside the element
/// named `name`, with `budget` events left: how it ends, the reads then, and the budget left.
pub open spec fn skip_run(doc: Seq<char>, log: ReadLog, name: Seq<u8>, budget: nat, depth: nat) -> (Ends<()>, ReadLog, nat)
    decreases budget,
{
    if depth == 0 {
        (Ends::Closed(()), log, budget)
    } else if budget == 0 {
        (Ends::Refused(bound_fail()), log, budget)
    } else {
        let l2 = log.push(None);
        let b2 = (budget - 1) as nat;
        match xml_event(doc, log) {
            Err(e) => (Ends::Reader(e), l2, b2),
            Ok(XmlEvent::Start(_)) => skip_run(doc, l2, name, b2, if depth < usize::MAX { depth + 1 } else { depth }),
            Ok(XmlEvent::End(n)) => skip_run(doc, l2, name, b2, if n@ == name { (depth - 1) as nat } else { depth }),
            Ok(XmlEvent::Eof) => (Ends::Refused(Fail::Invalid("unexpected end of file"@)), l2, b2),
            Ok(_) => skip_run(doc, l2, name, b2, depth),
        }
    }
}

/// Skipping never gives back budget, and a skip that gets anywhere spends some.
pub proof fn lemma_skip_budget(doc: Seq<char>, log: ReadLog, name: Seq<u8>, budget: nat, depth: nat)
    ensures
        skip_run(doc, log, name, budget, depth).2 <= budget,
        depth > 0 && skip_run(doc, log, name, budget, depth).0 is Closed ==> skip_run(doc, log, name, budget, depth).2 < budget,
    decreases budget,
{
    if depth > 0 && budget > 0 {
        let l2 = log.push(None);
        let b2 = (budget - 1) as nat;
        match xml_event(doc, log) {
            Ok(XmlEvent::Start(_)) => lemma_skip_budget(doc, l2, name, b2, if depth < usize::MAX { depth + 1 } else { depth }),
            Ok(XmlEvent::End(n)) => lemma_skip_budget(doc, l2, name, b2, if n@ == name { (depth - 1) as nat } else { depth }),
            Err(_) => {},
            Ok(XmlEvent::Eof) => {},
            Ok(_) => lemma_skip_budget(doc, l2, name, b2, depth),
        }
    }
}

/// Skip over the element just started: an element start deepens the nesting, an end tag
/// named `name` closes one level. It ends as `skip_run` says.
pub fn skip_element<'a>(reader: &mut XmlReader<'a>, name: &[u8], budget: &mut usize) -> (r: Result<(), XmlError>)
    ensures
        ({
            let (e, l, b) = skip_run(old(reader)@.0, old(reader)@.1, name@, *old(budget) as nat, 1);
            &&& final(reader)@ == (old(reader)@.0, l)
            &&& *final(budget) == b
            &&& (e is Closed <==> r is Ok)
            &&& ends_as(e, r)
        }),
        *final(budget) <= *old(budget),
        *old(budget) == 0 ==> (r matches Err(XmlError::Invalid(m)) && m@ == event_bound_msg()),
        r is Ok ==> *final(budget) < *old(budget),
{
    let ghost doc = reader@.0;
    let ghost run = skip_run(reader@.0, reader@.1, name@, *budget as nat, 1);
    proof {
        lemma_skip_budget(reader@.0, reader@.1, name@, *budget as nat, 1);
    }
    let mut depth: usize = 1;
    while depth > 0
        invariant
            reader@.0 == doc,
            doc == old(reader)@.0,
            run == skip_run(doc, reader@.1, name@, *budget as nat, depth as nat),
            run == skip_run(old(reader)@.0, old(reader)@.1, name@, *old(budget) as nat, 1),
            *budget <= *old(budget),
            *budget == *old(budget) ==> depth == 1,
        decreases *budget,
    {
        if *budget == 0 {
            return Err(XmlError::Invalid(String::from_str("more XML events than bytes in the document")));
        }
        match next_counted(reader, budget) {
            Ok(XmlEvent::Start(_)) => {
                if depth < usize::MAX {
                    depth = depth + 1;
                }
            },
            Ok(XmlEvent::End(n)) => {
                if bytes_eq(n.as_slice(), name) {
                    depth = depth - 1;
                }
            },
            Ok(XmlEvent::Eof) => {
                return Err(XmlError::Invalid(String::from_str("unexpected end of file")));
            },
            Err(e) => {
                return Err(e);
            },
            _ => {},
        }
    }
    Ok(())
}

// ---------------------------------------------------------------------------
// Document summary
// ---------------------------------------------------------------------------

/// The value found by an attribute lookup; errors count as absent.
pub open spec fn found(a: Result<Option<Seq<char>>, Seq<char>>) -> Option<Seq<char>> {
    match a {
        Ok(Some(t)) => Some(t),
        _ => None,
    }
}

/// The schema version read from the root's attributes, when one of them is present
/// (unreadable attributes count as absent).
pub open spec fn root_version(h: ElementHead) -> Option<Seq<char>> {
    let major = attr_text(h, seq![83u8, 99, 104, 101, 109, 97, 77, 97, 106, 111, 114, 86, 101, 114, 115, 105, 111, 110]);
    let minor = attr_text(h, seq![83u8, 99, 104, 101, 109, 97, 77, 105, 110, 111, 114, 86, 101, 114, 115, 105, 111, 110]);
    let sub = attr_text(h, seq![83u8, 99, 104, 101, 109, 97, 83, 117, 98, 77, 105, 110, 111, 114, 86, 101, 114, 115, 105, 111, 110]);
    if found(major) is None && found(minor) is None && found(sub) is None {
        None
    } else {
        Some((if found(major) is Some { found(major)->Some_0 } else { "0"@ }) + "."@ + (if found(minor) is Some {
            found(minor)->Some_0
        } else {
            "0"@
        }) + "."@ + (if found(sub) is Some { found(sub)->Some_0 } else { "0"@ }))
    }
}

fn ok_or_none(r: Result<Option<String>, XmlError>) -> (o: Option<String>)
    ensures
        o == (match r {
            Ok(v) => v,
            Err(_) => None::<String>,
        }),
{
    match r {
        Ok(v) => v,
        Err(_) => None,
    }
}

/// What a start or empty tag `h` at `depth` does to the document summary: the root's tag
/// names the schema version, if none was named yet; a tag directly below the root adds its
/// `Name` attribute, or else its tag name, to the names; an unreadable `Name` attribute is
/// an error with its text.
pub open spec fn start_step(h: ElementHead, depth: nat, sv: Option<Seq<char>>, top: Seq<Seq<char>>) -> Result<
    (Option<Seq<char>>, Seq<Seq<char>>),
    Seq<char>,
> {
    if depth == 1 && sv is None {
        Ok((root_version(h), top))
    } else if depth == 2 {
        match attr_text(h, seq![78u8, 97, 109, 101]) {
            Err(m) => Err(m),
            Ok(Some(n)) => Ok((sv, top.push(n))),
            Ok(None) => Ok((sv, top.push(utf8_lossy(h.name@)))),
        }
    } else {
        Ok((sv, top))
    }
}

/// The state of the document summary after a start or empty tag at `depth`: the root's
/// schema version, then the names of the elements directly below the root.
pub fn handle_start(
    event: &ElementHead,
    depth: usize,
    schema_version: &mut Option<String>,
    top_level: &mut Vec<String>,
) -> (r: Result<(), XmlError>)
    ensures
        match start_step(*event, depth as nat, opt_view(*old(schema_version)), texts(old(top_level)@)) {
            Err(m) => r matches Err(XmlError::Xml(e)) && e@ == m,
            Ok((s, t)) => r is Ok && opt_view(*final(schema_version)) == s && texts(final(top_level)@) == t,
        },
{
    let major_key: [u8; 18] = [83, 99, 104, 101, 109, 97, 77, 97, 106, 111, 114, 86, 101, 114, 115, 105, 111, 110];
    let minor_key: [u8; 18] = [83, 99, 104, 101, 109, 97, 77, 105, 110, 111, 114, 86, 101, 114, 115, 105, 111, 110];
    let sub_key: [u8; 21] = [83, 99, 104, 101, 109, 97, 83, 117, 98, 77, 105, 110, 111, 114, 86, 101, 114, 115, 105, 111, 110];
    let name_key: [u8; 4] = [78, 97, 109, 101];
    assert(major_key@ =~= seq![83u8, 99, 104, 101, 109, 97, 77, 97, 106, 111, 114, 86, 101, 114, 115, 105, 111, 110]);
    assert(minor_key@ =~= seq![83u8, 99, 104, 101, 109, 97, 77, 105, 110, 111, 114, 86, 101, 114, 115, 105, 111, 110]);
    assert(sub_key@ =~= seq![83u8, 99, 104, 101, 109, 97, 83, 117, 98, 77, 105, 110, 111, 114, 86, 101, 114, 115, 105, 111, 110]);
    assert(name_key@ =~= seq![78u8, 97, 109, 101]);
    let ghost t0 = texts(top_level@);
    if depth == 1 && schema_version.is_none() {
        let major = ok_or_none(attribute_value(event, major_key.as_slice()));
        let minor = ok_or_none(attribute_value(event, minor_key.as_slice()));
        let sub = ok_or_none(attribute_value(event, sub_key.as_slice()));
        *schema_version = extract_schema_version(major, minor, sub);
    } else if depth == 2 {
        match attribute_value(event, name_key.as_slice()) {
            Err(e) => {
                return Err(e);
            },
            Ok(Some(name)) => {
                let ghost nv = name@;
                top_level.push(name);
                assert(texts(top_level@) =~= t0.push(nv));
            },
            Ok(None) => {
                let n = lossy_string(event.name.as_slice());
                let ghost nv = n@;
                top_level.push(n);
                assert(texts(top_level@) =~= t0.push(nv));
            },
        }
    }
    Ok(())
}

/// The event budget of a document of `n` bytes: one event per byte, and one for its end.
pub open spec fn doc_budget(n: nat) -> nat {
    if n < usize::MAX {
        n + 1
    } else {
        n
    }
}

/// The nesting depth after an element opens, held at the largest `usize`.
pub open spec fn deeper(depth: nat) -> nat {
    if depth < usize::MAX {
        depth + 1
    } else {
        depth
    }
}

/// What summarizing the rest of `doc` gives, from the reads `log` on with `budget` events
/// left, at nesting `depth`, with the schema version `sv` and the names `top` found so far:
/// the summary at the end of the document, or the first error.
pub open spec fn mini_gives(doc: Seq<char>, log: ReadLog, budget: nat, depth: nat, sv: Option<Seq<char>>, top: Seq<Seq<char>>, r: Result<MinimalXmlInfo, XmlError>) -> bool
    decreases budget,
{
    if budget == 0 {
        fails(r, Fail::Invalid(event_bound_msg()))
    } else {
        let l2 = log.push(None);
        let b2 = (budget - 1) as nat;
        match xml_event(doc, log) {
            Err(e) => r == Err::<MinimalXmlInfo, XmlError>(e),
            Ok(XmlEvent::Start(h)) => match start_step(h, deeper(depth), sv, top) {
                Err(m) => r matches Err(XmlError::Xml(e)) && e@ == m,
                Ok((s, t)) => mini_gives(doc, l2, b2, deeper(depth), s, t, r),
            },
            Ok(XmlEvent::Empty(h)) => match start_step(h, deeper(depth), sv, top) {
                Err(m) => r matches Err(XmlError::Xml(e)) && e@ == m,
                Ok((s, t)) => mini_gives(doc, l2, b2, (deeper(depth) - 1) as nat, s, t, r),
            },
            Ok(XmlEvent::End(_)) => mini_gives(doc, l2, b2, if depth > 0 { (depth - 1) as nat } else { 0 }, sv, top, r),
            Ok(XmlEvent::Eof) => r matches Ok(info) && opt_view(info.schema_version) == sv && texts(info.top_level_features@) == top,
            Ok(XmlEvent::Other) => mini_gives(doc, l2, b2, depth, sv, top, r),
        }
    }
}

/// Parse an XML document and collect its schema version and the names of the elements
/// directly below the root. The result is what `mini_gives` says of the whole document.
pub fn parse_into_minimal_nodes(xml: &str) -> (r: Result<MinimalXmlInfo, XmlError>)
    ensures
        mini_gives(xml@, Seq::empty(), doc_budget(xml.len() as nat), 0, None, Seq::empty(), r),
{
    let mut reader = reader_for(xml);
    let mut budget: usize = if xml.len() < usize::MAX {
        xml.len() + 1
    } else {
        xml.len()
    };
    let mut depth: usize = 0;
    let mut schema_version: Option<String> = None;
    let mut top_level_features: Vec<String> = Vec::new();
    let ghost doc = xml@;
    let ghost b0 = budget as nat;
    assert(texts(top_level_features@) =~= Seq::<Seq<char>>::empty());
    while budget > 0
        invariant
            reader@.0 == doc,
            doc == xml@,
            b0 == (doc_budget(xml.len() as nat)),
            forall|q: Result<MinimalXmlInfo, XmlError>|
                mini_gives(doc, reader@.1, budget as nat, depth as nat, opt_view(schema_version), texts(top_level_features@), q)
                    ==> #[trigger] mini_gives(doc, Seq::empty(), b0, 0, None, Seq::empty(), q),
        decreases budget,
    {
        let ghost log = reader@.1;
        let ghost bud = budget as nat;
        let ghost d0 = depth as nat;
        let ghost sv0 = opt_view(schema_version);
        let ghost top0 = texts(top_level_features@);
        match next_counted(&mut reader, &mut budget) {
            Ok(XmlEvent::Start(e)) => {
                if depth < usize::MAX {
                    depth = depth + 1;
                }
                match handle_start(&e, depth, &mut schema_version, &mut top_level_features) {
                    Ok(()) => {},
                    Err(err) => {
                        assert(mini_gives(doc, log, bud, d0, sv0, top0, Err::<MinimalXmlInfo, XmlError>(err)));
                        return Err(err);
                    },
                }
            },
            Ok(XmlEvent::Empty(e)) => {
                if depth < usize::MAX {
                    depth = depth + 1;
                }
                match handle_start(&e, depth, &mut schema_version, &mut top_level_features) {
                    Ok(()) => {},
                    Err(err) => {
                        assert(mini_gives(doc, log, bud, d0, sv0, top0, Err::<MinimalXmlInfo, XmlError>(err)));
                        return Err(err);
                    },
                }
                depth = depth - 1;
            },
            Ok(XmlEvent::End(_)) => {
                if depth > 0 {
                    depth = depth - 1;
                }
            },
            Ok(XmlEvent::Eof) => {
                let r = Ok(MinimalXmlInfo { schema_version, top_level_features });
                assert(mini_gives(doc, log, bud, d0, sv0, top0, r));
                return r;
            },
            Err(err) => {
                assert(mini_gives(doc, log, bud, d0, sv0, top0, Err::<MinimalXmlInfo, XmlError>(err)));
                return Err(err);
            },
            _ => {},
        }
        assert forall|q: Result<MinimalXmlInfo, XmlError>|
            mini_gives(doc, reader@.1, budget as nat, depth as nat, opt_view(schema_version), texts(top_level_features@), q)
                implies #[trigger] mini_gives(doc, Seq::empty(), b0, 0, None, Seq::empty(), q) by {
            assert(mini_gives(doc, log, bud, d0, sv0, top0, q));
        }
    }
    let r = Err(XmlError::Invalid(String::from_str("more XML events than bytes in the document")));
    assert(mini_gives(doc, reader@.1, budget as nat, depth as nat, opt_view(schema_version), texts(top_level_features@), r));
    r
}

} // verus!
