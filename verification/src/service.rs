//! Decisions of the camera service: device identifiers, acquisition control requests and
//! the text of values handed to feature writes.
use vstd::prelude::*;
use vstd::string::StrSliceExecFns;
use crate::camctl::hex2;
use crate::gvcp::DeviceInfo;
use crate::text::{all_ascii, ascii_chars, ascii_string, lowered, to_ascii_lower};

verus! {

/// Hexadecimal digits of the bytes of `m`, two for each, upper-case.
pub open spec fn hex_run(m: Seq<u8>) -> Seq<u8>
    decreases m.len(),
{
    if m.len() == 0 {
        Seq::empty()
    } else {
        hex_run(m.drop_last()) + hex2(m.last())
    }
}

/// `cam-` then the MAC address as twelve lower-case hexadecimal digits.
pub open spec fn device_id_text(mac: Seq<u8>) -> Seq<u8> {
    seq![99u8, 97, 109, 45] + lowered(hex_run(mac))
}

proof fn lemma_hex_run_ascii(m: Seq<u8>)
    ensures
        all_ascii(hex_run(m)),
    decreases m.len(),
{
    if m.len() > 0 {
        lemma_hex_run_ascii(m.drop_last());
    }
}

/// The identifier under which a discovered device is published.
pub fn derive_device_id(info: &DeviceInfo) -> (id: String)
    ensures
        id@ == ascii_chars(device_id_text(info.mac@)),
{
    let mut hex: Vec<u8> = Vec::new();
    let mut i: usize = 0;
    while i < 6
        invariant
            i <= 6,
            info.mac@.len() == 6,
            hex@ == hex_run(info.mac@.subrange(0, i as int)),
        decreases 6 - i,
    {
        let b = info.mac[i];
        let hi = b / 16;
        let lo = b % 16;
        let c1: u8 = if hi < 10 {
            48 + hi
        } else {
            55 + hi
        };
        let c2: u8 = if lo < 10 {
            48 + lo
        } else {
            55 + lo
        };
        hex.push(c1);
        hex.push(c2);
        proof {
            let next = info.mac@.subrange(0, i + 1);
            assert(next.drop_last() =~= info.mac@.subrange(0, i as int));
            assert(hex@ =~= hex_run(next));
        }
        i = i + 1;
    }
    assert(info.mac@.subrange(0, 6) =~= info.mac@);
    let low = to_ascii_lower(hex.as_slice());
    let mut bytes: Vec<u8> = Vec::new();
    bytes.push(99u8);
    bytes.push(97u8);
    bytes.push(109u8);
    bytes.push(45u8);
    bytes.extend_from_slice(low.as_slice());
    proof {
        lemma_hex_run_ascii(info.mac@);
        assert(bytes@ =~= device_id_text(info.mac@));
    }
    ascii_string(bytes)
}

// ---------------------------------------------------------------------------
// Acquisition control
// ---------------------------------------------------------------------------

/// A request on the acquisition control key.
#[derive(Debug, Clone, Copy, PartialEq, Eq, Structural)]
pub enum AcquisitionCommand {
    Start,
    Stop,
}

/// What the service does with an acquisition request.
#[derive(Debug)]
pub enum AcquisitionStep {
    /// Start streaming frames.
    StartStream,
    /// Stop the running stream.
    StopStream,
    /// Answer the request as refused, with this reason.
    Refuse(String),
}

/// Decide an acquisition request: start only when no stream runs, stop only when one does.
pub fn acquisition_step(active: bool, command: AcquisitionCommand) -> (s: AcquisitionStep)
    ensures
        command == AcquisitionCommand::Start && !active ==> s is StartStream,
        command == AcquisitionCommand::Stop && active ==> s is StopStream,
        command == AcquisitionCommand::Start && active ==> (s matches AcquisitionStep::Refuse(m)
            && m@ == "acquisition already active"@),
        command == AcquisitionCommand::Stop && !active ==> (s matches AcquisitionStep::Refuse(m)
            && m@ == "acquisition not active"@),
{
    match command {
        AcquisitionCommand::Start => {
            if active {
                AcquisitionStep::Refuse(String::from_str("acquisition already active"))
            } else {
                AcquisitionStep::StartStream
            }
        },
        AcquisitionCommand::Stop => {
            if active {
                AcquisitionStep::StopStream
            } else {
                AcquisitionStep::Refuse(String::from_str("acquisition not active"))
            }
        },
    }
}

// ---------------------------------------------------------------------------
// Values of feature writes
// ---------------------------------------------------------------------------

/// Number of leading `"` of `s`.
pub open spec fn quote_prefix(s: Seq<char>) -> nat
    decreases s.len(),
{
    if s.len() > 0 && s[0] == '"' {
        1 + quote_prefix(s.drop_first())
    } else {
        0
    }
}

/// Number of trailing `"` of `s`.
pub open spec fn quote_suffix(s: Seq<char>) -> nat
    decreases s.len(),
{
    if s.len() > 0 && s.last() == '"' {
        1 + quote_suffix(s.drop_last())
    } else {
        0
    }
}

/// `s` without its leading and trailing `"`.
pub open spec fn trim_quotes(s: Seq<char>) -> Seq<char> {
    if quote_prefix(s) == s.len() {
        Seq::empty()
    } else {
        s.subrange(quote_prefix(s) as int, s.len() - quote_suffix(s))
    }
}

proof fn lemma_quote_prefix_is(s: Seq<char>, i: int)
    requires
        0 <= i <= s.len(),
        forall|k: int| 0 <= k < i ==> s[k] == '"',
        i < s.len() ==> s[i] != '"',
    ensures
        quote_prefix(s) == i,
    decreases s.len(),
{
    if i > 0 {
        assert(forall|k: int| 0 <= k < i - 1 ==> s.drop_first()[k] == s[k + 1]);
        lemma_quote_prefix_is(s.drop_first(), i - 1);
    }
}

proof fn lemma_quote_suffix_is(s: Seq<char>, j: int)
    requires
        0 <= j <= s.len(),
        forall|k: int| j <= k < s.len() ==> s[k] == '"',
        j > 0 ==> s[j - 1] != '"',
    ensures
        quote_suffix(s) == s.len() - j,
    decreases s.len(),
{
    if j < s.len() {
        lemma_quote_suffix_is(s.drop_last(), j);
    }
}

/// The value text with the quotes of a JSON string taken off both ends.
pub fn strip_quotes(s: &str) -> (r: String)
    ensures
        r@ == trim_quotes(s@),
{
    let n = s.unicode_len();
    let mut i: usize = 0;
    while i < n && s.get_char(i) == '"'
        invariant
            n == s@.len(),
            i <= n,
            forall|k: int| 0 <= k < i ==> s@[k] == '"',
        decreases n - i,
    {
        i = i + 1;
    }
    proof {
        lemma_quote_prefix_is(s@, i as int);
    }
    if i == n {
        return String::new();
    }
    let mut j: usize = n;
    while j > i && s.get_char(j - 1) == '"'
        invariant
            n == s@.len(),
            i < j <= n,
            s@[i as int] != '"',
            forall|k: int| j <= k < n ==> s@[k] == '"',
        decreases j,
    {
        j = j - 1;
    }
    proof {
        lemma_quote_suffix_is(s@, j as int);
    }
    String::from_str(s.substring_char(i, j))
}


// ---------------------------------------------------------------------------
// Discovery rounds
// ---------------------------------------------------------------------------

/// The texts of a list of strings.
pub open spec fn ids(v: Seq<String>) -> Seq<Seq<char>> {
    v.map_values(|s: String| s@)
}

/// The active devices, in order, that a discovery round did not find again.
pub open spec fn lost_ids(active: Seq<Seq<char>>, found: Seq<Seq<char>>) -> Seq<Seq<char>>
    decreases active.len(),
{
    if active.len() == 0 {
        Seq::empty()
    } else if found.contains(active.last()) {
        lost_ids(active.drop_last(), found)
    } else {
        lost_ids(active.drop_last(), found).push(active.last())
    }
}

/// Whether `id` is one of `found`.
fn is_found(found: &Vec<String>, id: &String) -> (b: bool)
    ensures
        b == ids(found@).contains(id@),
{
    let mut i: usize = 0;
    while i < found.len()
        invariant
            i <= found@.len(),
            forall|j: int| 0 <= j < i ==> ids(found@)[j] != id@,
        decreases found@.len() - i,
    {
        if found[i] == *id {
            assert(ids(found@)[i as int] == id@);
            return true;
        }
        i = i + 1;
    }
    false
}

/// The active devices to drop after a discovery round that found the devices `found`: those
/// not found again. A round that found nothing (the discovery failed) drops none.
pub fn lost_devices(active: &Vec<String>, found: &Vec<String>) -> (lost: Vec<String>)
    ensures
        ids(lost@) == (if found@.len() == 0 { Seq::<Seq<char>>::empty() } else { lost_ids(ids(active@), ids(found@)) }),
{
    let mut lost: Vec<String> = Vec::new();
    if found.len() == 0 {
        assert(ids(lost@) =~= Seq::<Seq<char>>::empty());
        return lost;
    }
    let mut i: usize = 0;
    while i < active.len()
        invariant
            i <= active@.len(),
            found@.len() > 0,
            ids(lost@) == lost_ids(ids(active@).take(i as int), ids(found@)),
        decreases active@.len() - i,
    {
        let id = &active[i];
        let hit = is_found(found, id);
        proof {
            let t = ids(active@).take(i + 1);
            assert(t.drop_last() =~= ids(active@).take(i as int));
            assert(t.last() == id@);
        }
        if !hit {
            lost.push(id.clone());
            assert(ids(lost@) =~= lost_ids(ids(active@).take(i + 1), ids(found@)));
        }
        i = i + 1;
    }
    assert(ids(active@).take(active@.len() as int) =~= ids(active@));
    lost
}

/// What a request to set a node leads to before the device is asked.
#[derive(Debug)]
pub enum SetStep {
    /// Answer at once that the request failed, with this message.
    Refuse(String),
    /// Set the node `name` to the text `value`.
    Write { name: String, value: String },
}

/// The answer to a request on a node: whether it succeeded, and why not.
#[derive(Debug)]
pub struct NodeOpReply {
    pub ok: bool,
    pub error: Option<String>,
}

/// What a set request on the node `node_name` leads to, given its payload: none, one that
/// is not a set request (with the parser's message), or the JSON text of the requested
/// value. A request without node name or payload, or with a payload that does not parse,
/// is refused; otherwise the node is set to the value with the quotes of a JSON string
/// taken off.
pub fn set_request_step(node_name: &str, payload: Option<Result<String, String>>) -> (s: SetStep)
    ensures
        node_name@.len() == 0 ==> (s matches SetStep::Refuse(m) && m@ == "missing node name"@),
        node_name@.len() > 0 ==> match payload {
            None => s matches SetStep::Refuse(m) && m@ == "missing payload"@,
            Some(Err(e)) => s matches SetStep::Refuse(m) && m@ == "invalid payload: "@ + e@,
            Some(Ok(v)) => s matches SetStep::Write { name, value } && name@ == node_name@ && value@ == trim_quotes(v@),
        },
{
    if node_name.unicode_len() == 0 {
        return SetStep::Refuse(String::from_str("missing node name"));
    }
    match payload {
        None => SetStep::Refuse(String::from_str("missing payload")),
        Some(Err(e)) => {
            let mut m = String::from_str("invalid payload: ");
            m.append(e.as_str());
            SetStep::Refuse(m)
        },
        Some(Ok(v)) => SetStep::Write { name: String::from_str(node_name), value: strip_quotes(v.as_str()) },
    }
}

/// The answer to a set request: success, or the message of the refusal or of the device's
/// error.
pub fn set_reply(outcome: Result<(), String>) -> (r: NodeOpReply)
    ensures
        outcome is Ok ==> r.ok && r.error is None,
        outcome matches Err(m) ==> !r.ok && (r.error matches Some(e) && e@ == m@),
{
    match outcome {
        Ok(()) => NodeOpReply { ok: true, error: None },
        Err(m) => NodeOpReply { ok: false, error: Some(m) },
    }
}

} // verus!
