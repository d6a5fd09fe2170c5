//! The prover host: frames in and out of a pipe, and one job per connection.
//!
//! A frame is a length of four bytes, little-endian, and that many bytes of
//! JSON. The first frame each way is a greeting with the protocol's version;
//! then comes one job, answered by steps and exactly one last reply. A reply
//! that a submission did not complete is no refusal: the transaction may have
//! landed. Neither is what a node says that is no refusal of its own.
use crate::net::{SubmitAnswer, SubmitClass};
#[allow(unused_imports)]
use crate::net::class_of;
use crate::spend::SendError;
use crate::text::{chars_of, parse_number, push_dec, str_eq, trim};
#[allow(unused_imports)]
use crate::text::{dec, number_text, trim_of};
use vstd::bytes::{u32_from_le_bytes, u32_to_le_bytes};
#[allow(unused_imports)]
use vstd::bytes::{spec_u32_from_le_bytes, spec_u32_to_le_bytes};
use vstd::prelude::*;

verus! {

/// The protocol that is spoken.
pub const PROTOCOL: u64 = 1;

/// The longest frame that is read.
pub const MAX_IN: u32 = 67_108_864;

/// The longest frame that is written.
pub const MAX_OUT: usize = 1_048_576;

/// What serde_json says of bytes that are no JSON; none of bytes that are.
pub uninterp spec fn json_fault(bytes: Seq<u8>) -> Option<Seq<char>>;

/// The text that the JSON of some bytes has under a key; none where there is no
/// such key, or no text under it.
pub uninterp spec fn json_text(bytes: Seq<u8>, key: Seq<char>) -> Option<Seq<char>>;

/// The number that the JSON of some bytes has under a key.
pub uninterp spec fn json_number(bytes: Seq<u8>, key: Seq<char>) -> Option<u64>;

/// The bytes of a JSON object with texts and numbers under their keys.
pub uninterp spec fn json_object(
    texts: Seq<(Seq<char>, Seq<char>)>,
    numbers: Seq<(Seq<char>, u64)>,
) -> Result<Seq<u8>, Seq<char>>;

/// The text of an optional string.
pub open spec fn opt_words(s: Option<String>) -> Option<Seq<char>> {
    match s {
        Some(t) => Some(t@),
        None => None,
    }
}

/// Reads JSON with `serde_json::from_slice` and takes the text under a key with
/// `Value::get` and `Value::as_str`; the error is the reader's, in its words.
#[verifier::external_body]
fn text_field(bytes: &[u8], key: &str) -> (r: Result<Option<String>, String>)
    ensures
        match json_fault(bytes@) {
            Some(e) => r matches Err(w) && w@ == e,
            None => r matches Ok(t) && opt_words(t) == json_text(bytes@, key@),
        },
{
    match serde_json::from_slice::<serde_json::Value>(bytes) {
        Ok(v) => Ok(v.get(key).and_then(serde_json::Value::as_str).map(str::to_string)),
        Err(e) => Err(e.to_string()),
    }
}

/// Reads JSON with `serde_json::from_slice` and takes the number under a key
/// with `Value::get` and `Value::as_u64`.
#[verifier::external_body]
fn number_field(bytes: &[u8], key: &str) -> (r: Result<Option<u64>, String>)
    ensures
        match json_fault(bytes@) {
            Some(e) => r matches Err(w) && w@ == e,
            None => r matches Ok(n) && n == json_number(bytes@, key@),
        },
{
    match serde_json::from_slice::<serde_json::Value>(bytes) {
        Ok(v) => Ok(v.get(key).and_then(serde_json::Value::as_u64)),
        Err(e) => Err(e.to_string()),
    }
}

/// Pairs of texts as values.
pub open spec fn text_pairs(s: Seq<(&str, &str)>) -> Seq<(Seq<char>, Seq<char>)> {
    Seq::new(s.len(), |i: int| (s[i].0@, s[i].1@))
}

/// Pairs of texts and numbers as values.
pub open spec fn number_pairs(s: Seq<(&str, u64)>) -> Seq<(Seq<char>, u64)> {
    Seq::new(s.len(), |i: int| (s[i].0@, s[i].1))
}

/// No key stands under two members.
pub open spec fn distinct_keys(
    texts: Seq<(Seq<char>, Seq<char>)>,
    numbers: Seq<(Seq<char>, u64)>,
) -> bool {
    &&& forall|i: int, j: int| 0 <= i < j < texts.len() ==> texts[i].0 != texts[j].0
    &&& forall|i: int, j: int| 0 <= i < j < numbers.len() ==> numbers[i].0 != numbers[j].0
    &&& forall|i: int, j: int|
        0 <= i < texts.len() && 0 <= j < numbers.len() ==> texts[i].0 != numbers[j].0
}

/// Bytes are JSON that has these members.
pub open spec fn reads_as(
    bytes: Seq<u8>,
    texts: Seq<(Seq<char>, Seq<char>)>,
    numbers: Seq<(Seq<char>, u64)>,
) -> bool {
    &&& json_fault(bytes) is None
    &&& forall|i: int|
        0 <= i < texts.len() ==> json_text(bytes, (#[trigger] texts[i]).0) == Some(texts[i].1)
    &&& forall|i: int|
        0 <= i < numbers.len() ==> json_number(bytes, (#[trigger] numbers[i]).0) == Some(
            numbers[i].1,
        )
}

/// Writes an object with `serde_json::to_vec`, its members set with
/// `serde_json::Map::insert`; the error is the writer's, in its words. What is
/// written under distinct keys reads back: it is JSON, and has each member under
/// its key.
#[verifier::external_body]
fn object_bytes(texts: &[(&str, &str)], numbers: &[(&str, u64)]) -> (r: Result<Vec<u8>, String>)
    ensures
        match json_object(text_pairs(texts@), number_pairs(numbers@)) {
            Ok(b) => r matches Ok(v) && v@ == b,
            Err(e) => r matches Err(w) && w@ == e,
        },
        r matches Ok(v) ==> (distinct_keys(text_pairs(texts@), number_pairs(numbers@)) ==> reads_as(
            v@,
            text_pairs(texts@),
            number_pairs(numbers@),
        )),
{
    let mut m = serde_json::Map::new();
    for (k, t) in texts {
        m.insert(k.to_string(), serde_json::Value::from(*t));
    }
    for (k, n) in numbers {
        m.insert(k.to_string(), serde_json::Value::from(*n));
    }
    serde_json::to_vec(&m).map_err(|e| e.to_string())
}

/// What a frame holds of what is read.
#[derive(Clone, PartialEq, Eq)]
pub struct Frame {
    pub op: Option<String>,
    pub v: Option<u64>,
    pub bundle_b64: Option<String>,
    pub scan_url: Option<String>,
    pub node_url: Option<String>,
}

/// A frame is what its bytes' JSON says.
pub open spec fn is_frame(f: Frame, bytes: Seq<u8>) -> bool {
    &&& opt_words(f.op) == json_text(bytes, "op"@)
    &&& f.v == json_number(bytes, "v"@)
    &&& opt_words(f.bundle_b64) == json_text(bytes, "bundle_b64"@)
    &&& opt_words(f.scan_url) == json_text(bytes, "scan_url"@)
    &&& opt_words(f.node_url) == json_text(bytes, "node_url"@)
}

/// The length of a frame, out of the four bytes before it.
pub fn frame_len(head: &[u8; 4]) -> (r: Result<u32, String>)
    ensures
        ({
            let n = spec_u32_from_le_bytes(head@);
            if n > MAX_IN {
                r matches Err(e) && e@ == "inbound frame of "@ + dec(n as nat)
                    + " bytes exceeds Chrome's own 64 MiB cap"@
            } else {
                r == Ok::<u32, String>(n)
            }
        }),
{
    let n: u32 = u32_from_le_bytes(head);
    if n > MAX_IN {
        let mut e: String = "inbound frame of ".to_owned();
        push_dec(&mut e, n as u64);
        e.append(" bytes exceeds Chrome's own 64 MiB cap");
        return Err(e);
    }
    Ok(n)
}

fn not_json(why: String) -> (r: String)
    ensures
        r@ == "frame is not JSON: "@ + why@,
{
    let mut e: String = "frame is not JSON: ".to_owned();
    e.append(why.as_str());
    e
}

/// Reads a frame's bytes.
pub fn read_frame(bytes: &[u8]) -> (r: Result<Frame, String>)
    ensures
        match json_fault(bytes@) {
            Some(e) => r matches Err(w) && w@ == "frame is not JSON: "@ + e,
            None => r matches Ok(f) && is_frame(f, bytes@),
        },
{
    match (
        text_field(bytes, "op"),
        number_field(bytes, "v"),
        text_field(bytes, "bundle_b64"),
        text_field(bytes, "scan_url"),
        text_field(bytes, "node_url"),
    ) {
        (Ok(op), Ok(v), Ok(bundle_b64), Ok(scan_url), Ok(node_url)) => Ok(
            Frame { op, v, bundle_b64, scan_url, node_url },
        ),
        (Err(e), _, _, _, _) => Err(not_json(e)),
        (_, Err(e), _, _, _) => Err(not_json(e)),
        (_, _, Err(e), _, _) => Err(not_json(e)),
        (_, _, _, Err(e), _) => Err(not_json(e)),
        (_, _, _, _, Err(e)) => Err(not_json(e)),
    }
}

/// What is written to the pipe.
#[derive(Clone, Debug, PartialEq, Eq)]
#[allow(inconsistent_fields)]
pub enum Reply {
    Hello { v: u64 },
    Refused { why: String },
    Step { words: String },
    /// The node took the transaction.
    Accepted { status: u16, body: String },
    /// The node had the transaction already.
    Duplicate { status: u16, body: String },
    /// The node refused the transaction, by name.
    Declined { status: u16, body: String },
    /// The node said something that is neither a refusal nor an admission: that
    /// it cannot answer now, or what this host has no name for.
    Answered { status: u16, body: String },
    /// The submission did not complete: the transaction may have landed.
    Incomplete { why: String },
}

/// The members of a reply's object.
pub open spec fn members(r: Reply) -> (Seq<(Seq<char>, Seq<char>)>, Seq<(Seq<char>, u64)>) {
    match r {
        Reply::Hello { v } => (seq![("op"@, "hello"@)], seq![("v"@, v)]),
        Reply::Refused { why } => (seq![("op"@, "refused"@), ("why"@, why@)], seq![]),
        Reply::Step { words } => (seq![("op"@, "step"@), ("words"@, words@)], seq![]),
        Reply::Accepted { status, body } => (
            seq![("op"@, "accepted"@), ("body"@, body@)],
            seq![("status"@, status as u64)],
        ),
        Reply::Duplicate { status, body } => (
            seq![("op"@, "duplicate"@), ("body"@, body@)],
            seq![("status"@, status as u64)],
        ),
        Reply::Declined { status, body } => (
            seq![("op"@, "refused"@), ("why"@, body@), ("body"@, body@)],
            seq![("status"@, status as u64)],
        ),
        Reply::Answered { status, body } => (
            seq![("op"@, "answered"@), ("body"@, body@)],
            seq![("status"@, status as u64)],
        ),
        Reply::Incomplete { why } => (seq![("op"@, "incomplete"@), ("why"@, why@)], seq![]),
    }
}

/// A frame around some bytes.
pub open spec fn frame_bytes(bytes: Seq<u8>) -> Seq<u8> {
    spec_u32_to_le_bytes(bytes.len() as u32) + bytes
}

/// Puts the length in front of a frame's bytes; a frame that is too long is
/// never written.
pub fn framed(bytes: Vec<u8>) -> (r: Result<Vec<u8>, String>)
    ensures
        if bytes@.len() > MAX_OUT {
            r matches Err(e) && e@ == "outbound frame of "@ + dec(bytes@.len())
                + " bytes would exceed the 1 MB cap"@
        } else {
            r matches Ok(v) && v@ == frame_bytes(bytes@)
        },
{
    if bytes.len() > MAX_OUT {
        let mut e: String = "outbound frame of ".to_owned();
        push_dec(&mut e, bytes.len() as u64);
        e.append(" bytes would exceed the 1 MB cap");
        return Err(e);
    }
    let mut out = u32_to_le_bytes(bytes.len() as u32);
    let ghost head = out@;
    let mut i: usize = 0;
    while i < bytes.len()
        invariant
            i <= bytes@.len(),
            out@ == head + bytes@.take(i as int),
        decreases bytes@.len() - i,
    {
        out.push(bytes[i]);
        i += 1;
        assert(bytes@.take(i as int) =~= bytes@.take(i - 1).push(bytes@[i - 1]));
    }
    assert(bytes@.take(i as int) =~= bytes@);
    Ok(out)
}

proof fn lemma_members_are_distinct(r: Reply)
    ensures
        distinct_keys(members(r).0, members(r).1),
{
    reveal_strlit("op");
    reveal_strlit("v");
    reveal_strlit("why");
    reveal_strlit("words");
    reveal_strlit("body");
    reveal_strlit("status");
    assert("op"@.len() == 2 && "v"@.len() == 1 && "why"@.len() == 3 && "words"@.len() == 5
        && "body"@.len() == 4 && "status"@.len() == 6);
}

fn reply_bytes(reply: &Reply) -> (r: Result<Vec<u8>, String>)
    ensures
        match json_object(members(*reply).0, members(*reply).1) {
            Ok(b) => r matches Ok(v) && v@ == b,
            Err(e) => r matches Err(w) && w@ == e,
        },
        r matches Ok(v) ==> reads_as(v@, members(*reply).0, members(*reply).1),
{
    proof {
        lemma_members_are_distinct(*reply);
    }
    match reply {
        Reply::Hello { v } => {
            let texts: [(&str, &str); 1] = [("op", "hello")];
            let numbers: [(&str, u64); 1] = [("v", *v)];
            assert(text_pairs(texts@) =~= members(*reply).0);
            assert(number_pairs(numbers@) =~= members(*reply).1);
            object_bytes(&texts, &numbers)
        },
        Reply::Refused { why } => {
            let texts: [(&str, &str); 2] = [("op", "refused"), ("why", why.as_str())];
            let numbers: [(&str, u64); 0] = [];
            assert(text_pairs(texts@) =~= members(*reply).0);
            assert(number_pairs(numbers@) =~= members(*reply).1);
            object_bytes(&texts, &numbers)
        },
        Reply::Step { words } => {
            let texts: [(&str, &str); 2] = [("op", "step"), ("words", words.as_str())];
            let numbers: [(&str, u64); 0] = [];
            assert(text_pairs(texts@) =~= members(*reply).0);
            assert(number_pairs(numbers@) =~= members(*reply).1);
            object_bytes(&texts, &numbers)
        },
        Reply::Accepted { status, body } => {
            let texts: [(&str, &str); 2] = [("op", "accepted"), ("body", body.as_str())];
            let numbers: [(&str, u64); 1] = [("status", *status as u64)];
            assert(text_pairs(texts@) =~= members(*reply).0);
            assert(number_pairs(numbers@) =~= members(*reply).1);
            object_bytes(&texts, &numbers)
        },
        Reply::Duplicate { status, body } => {
            let texts: [(&str, &str); 2] = [("op", "duplicate"), ("body", body.as_str())];
            let numbers: [(&str, u64); 1] = [("status", *status as u64)];
            assert(text_pairs(texts@) =~= members(*reply).0);
            assert(number_pairs(numbers@) =~= members(*reply).1);
            object_bytes(&texts, &numbers)
        },
        Reply::Declined { status, body } => {
            let texts: [(&str, &str); 3] = [
                ("op", "refused"),
                ("why", body.as_str()),
                ("body", body.as_str()),
            ];
            let numbers: [(&str, u64); 1] = [("status", *status as u64)];
            assert(text_pairs(texts@) =~= members(*reply).0);
            assert(number_pairs(numbers@) =~= members(*reply).1);
            object_bytes(&texts, &numbers)
        },
        Reply::Answered { status, body } => {
            let texts: [(&str, &str); 2] = [("op", "answered"), ("body", body.as_str())];
            let numbers: [(&str, u64); 1] = [("status", *status as u64)];
            assert(text_pairs(texts@) =~= members(*reply).0);
            assert(number_pairs(numbers@) =~= members(*reply).1);
            object_bytes(&texts, &numbers)
        },
        Reply::Incomplete { why } => {
            let texts: [(&str, &str); 2] = [("op", "incomplete"), ("why", why.as_str())];
            let numbers: [(&str, u64); 0] = [];
            assert(text_pairs(texts@) =~= members(*reply).0);
            assert(number_pairs(numbers@) =~= members(*reply).1);
            object_bytes(&texts, &numbers)
        },
    }
}

/// The bytes of a reply, as a frame. Behind its length a frame that was written
/// reads back: it is JSON with the reply's members.
pub fn write_frame(reply: &Reply) -> (r: Result<Vec<u8>, String>)
    ensures
        r matches Ok(v) ==> reads_as(v@.skip(4), members(*reply).0, members(*reply).1),
        match json_object(members(*reply).0, members(*reply).1) {
            Err(e) => r matches Err(w) && w@ == e,
            Ok(b) => if b.len() > MAX_OUT {
                r matches Err(e) && e@ == "outbound frame of "@ + dec(b.len())
                    + " bytes would exceed the 1 MB cap"@
            } else {
                r matches Ok(v) && v@ == frame_bytes(b)
            },
        },
{
    match reply_bytes(reply) {
        Err(e) => Err(e),
        Ok(b) => {
            proof {
                if b@.len() <= MAX_OUT {
                    law_a_frame_says_its_length(b@);
                }
            }
            framed(b)
        },
    }
}

/// A frame that was written is read whole: its first four bytes say how many
/// follow, and that many may be read.
pub proof fn law_a_frame_says_its_length(bytes: Seq<u8>)
    requires
        bytes.len() <= MAX_OUT,
    ensures
        frame_bytes(bytes).len() == 4 + bytes.len(),
        spec_u32_from_le_bytes(frame_bytes(bytes).take(4)) == bytes.len(),
        spec_u32_from_le_bytes(frame_bytes(bytes).take(4)) <= MAX_IN,
        frame_bytes(bytes).skip(4) == bytes,
{
    vstd::bytes::lemma_auto_spec_u32_to_from_le_bytes();
    assert(frame_bytes(bytes).take(4) =~= spec_u32_to_le_bytes(bytes.len() as u32));
    assert(frame_bytes(bytes).skip(4) =~= bytes);
}

/// What a job asks for.
#[derive(Clone, PartialEq, Eq)]
pub struct Job {
    pub bundle_b64: String,
    pub scan_url: String,
    pub node_url: String,
}

/// How far a connection is.
#[derive(Clone, Copy, Debug, PartialEq, Eq)]
pub enum HostPhase {
    Greeting,
    Asking,
    Locking,
    Decoding,
    Reading,
    Preflighting,
    Proving,
    Submitting,
    Over,
}

/// What came of the phase that a connection was in. The steps of a proof and of
/// a submission are in the words that are shown.
#[allow(inconsistent_fields)]
pub enum HostEvent {
    /// A frame of the pipe: the greeting, or the job.
    Frame(Frame),
    Locked(Result<(), String>),
    /// The job's bundle, out of its text.
    Decoded(Result<(), String>),
    /// The bundle, out of its bytes; the error as it prints itself.
    Bundle(Result<(), String>),
    Preflighted(Result<(), SendError>),
    Proved { steps: Vec<String>, done: Result<(), SendError> },
    Submitted { steps: Vec<String>, done: Result<SubmitAnswer, SendError> },
}

/// What a connection does next.
#[derive(Clone, Copy, Debug, PartialEq, Eq)]
pub enum HostAction {
    ReadFrame,
    TakeLock,
    Decode,
    ReadBundle,
    Preflight,
    Prove,
    Submit,
    Stop,
}

/// One connection.
#[derive(Clone)]
pub struct HostRun {
    pub phase: HostPhase,
    pub job: Option<Job>,
}

pub const NO_GREETING: &'static str = "the first frame must be a hello carrying a protocol version";

pub const UNKNOWN_OP: &'static str = "unknown op — this host proves and submits, nothing else";

pub const INCOMPLETE_JOB: &'static str = "prove_and_submit needs bundle_b64, scan_url and node_url";

/// What another version of the protocol is refused with.
pub open spec fn mismatch_text(theirs: u64) -> Seq<char> {
    "protocol mismatch: extension speaks v"@ + dec(theirs as nat) + ", host speaks v"@ + dec(
        PROTOCOL as nat,
    ) + " — "@ + (if theirs < PROTOCOL {
        "the extension"@
    } else {
        "this host"@
    })
        + " is older; update it. The two artifacts install separately, so skew is normal and refusing it is the feature."@
}

/// Why a first frame is refused; none where it is a greeting of this protocol.
pub open spec fn greeting_fault(f: Frame) -> Option<Seq<char>> {
    let theirs = match f.v {
        Some(v) => v,
        None => 0,
    };
    if opt_words(f.op) != Some("hello"@) || theirs == 0 {
        Some(NO_GREETING@)
    } else if theirs != PROTOCOL {
        Some(mismatch_text(theirs))
    } else {
        None
    }
}

/// Why a second frame is refused; none where it is a whole job.
pub open spec fn job_fault(f: Frame) -> Option<Seq<char>> {
    if opt_words(f.op) != Some("prove_and_submit"@) {
        Some(UNKNOWN_OP@)
    } else if f.bundle_b64 is None || f.scan_url is None || f.node_url is None {
        Some(INCOMPLETE_JOB@)
    } else {
        None
    }
}

/// One refusal, and the connection is over.
pub open spec fn refused_only(
    now: HostRun,
    replies: Seq<Reply>,
    next: HostAction,
    why: Seq<char>,
) -> bool {
    &&& now.phase == HostPhase::Over
    &&& next == HostAction::Stop
    &&& replies.len() == 1
    &&& replies[0] matches Reply::Refused { why: w } && w@ == why
}

/// The first replies are the steps.
pub open spec fn steps_first(replies: Seq<Reply>, steps: Seq<String>) -> bool {
    &&& replies.len() >= steps.len()
    &&& forall|i: int|
        0 <= i < steps.len() ==> (#[trigger] replies[i] matches Reply::Step { words } && words@
            == steps[i]@)
}

/// No reply, and the connection goes on to a phase.
pub open spec fn goes_on(
    was: HostRun,
    now: HostRun,
    replies: Seq<Reply>,
    next: HostAction,
    phase: HostPhase,
    action: HostAction,
) -> bool {
    replies.len() == 0 && now.phase == phase && now.job == was.job && next == action
}

/// What an event leads to: the connection after it, the replies and what is done
/// next.
pub open spec fn hosted(
    was: HostRun,
    now: HostRun,
    e: HostEvent,
    replies: Seq<Reply>,
    next: HostAction,
) -> bool {
    match e {
        HostEvent::Frame(f) => if was.phase == HostPhase::Greeting {
            match greeting_fault(f) {
                Some(why) => refused_only(now, replies, next, why),
                None => {
                    &&& now.phase == HostPhase::Asking && next == HostAction::ReadFrame
                    &&& replies.len() == 1 && replies[0] == (Reply::Hello { v: PROTOCOL })
                },
            }
        } else {
            match job_fault(f) {
                Some(why) => refused_only(now, replies, next, why),
                None => {
                    &&& now.phase == HostPhase::Locking && next == HostAction::TakeLock
                    &&& replies.len() == 0
                    &&& now.job matches Some(j) && j.bundle_b64@ == (f.bundle_b64->0)@
                        && j.scan_url@ == (f.scan_url->0)@ && j.node_url@ == (f.node_url->0)@
                },
            }
        },
        HostEvent::Locked(Err(why)) => refused_only(now, replies, next, why@),
        HostEvent::Locked(Ok(_)) => goes_on(
            was,
            now,
            replies,
            next,
            HostPhase::Decoding,
            HostAction::Decode,
        ),
        HostEvent::Decoded(Err(why)) => refused_only(
            now,
            replies,
            next,
            "bundle_b64 did not decode: "@ + why@,
        ),
        HostEvent::Decoded(Ok(_)) => goes_on(
            was,
            now,
            replies,
            next,
            HostPhase::Reading,
            HostAction::ReadBundle,
        ),
        HostEvent::Bundle(Err(why)) => refused_only(
            now,
            replies,
            next,
            "witness bundle refused: "@ + why@,
        ),
        HostEvent::Bundle(Ok(_)) => goes_on(
            was,
            now,
            replies,
            next,
            HostPhase::Preflighting,
            HostAction::Preflight,
        ),
        HostEvent::Preflighted(Err(why)) => refused_only(now, replies, next, why.text()),
        HostEvent::Preflighted(Ok(_)) => goes_on(
            was,
            now,
            replies,
            next,
            HostPhase::Proving,
            HostAction::Prove,
        ),
        HostEvent::Proved { steps, done } => {
            &&& steps_first(replies, steps@)
            &&& match done {
                Ok(_) => {
                    &&& now.phase == HostPhase::Submitting && now.job == was.job
                    &&& next == HostAction::Submit
                    &&& replies.len() == steps@.len()
                },
                Err(why) => {
                    &&& now.phase == HostPhase::Over && next == HostAction::Stop
                    &&& replies.len() == steps@.len() + 1
                    &&& replies.last() matches Reply::Refused { why: w } && w@ == why.text()
                },
            }
        },
        HostEvent::Submitted { steps, done } => {
            &&& steps_first(replies, steps@)
            &&& now.phase == HostPhase::Over && next == HostAction::Stop
            &&& replies.len() == steps@.len() + 1
            &&& match done {
                Ok(a) => is_verdict(replies.last(), a),
                Err(SendError::Incomplete { why, .. }) => replies.last() matches Reply::Incomplete {
                    why: w,
                } && w@ == why@,
                Err(why) => replies.last() matches Reply::Refused { why: w } && w@ == why.text(),
            }
        },
    }
}

/// The last reply for a node's answer, by the answer's class; each of them hands
/// on the node's status and its own words.
pub open spec fn is_verdict(r: Reply, a: SubmitAnswer) -> bool {
    match class_of(a.body@) {
        SubmitClass::Accepted => r matches Reply::Accepted { status, body } && status == a.status
            && body@ == a.body@,
        SubmitClass::Duplicate => r matches Reply::Duplicate { status, body } && status == a.status
            && body@ == a.body@,
        SubmitClass::Refused => r matches Reply::Declined { status, body } && status == a.status
            && body@ == a.body@,
        SubmitClass::Unavailable | SubmitClass::Unknown => r matches Reply::Answered { status, body }
            && status == a.status && body@ == a.body@,
    }
}

fn last_word(a: SubmitAnswer) -> (r: Reply)
    ensures
        is_verdict(r, a),
{
    match a.class() {
        SubmitClass::Accepted => Reply::Accepted { status: a.status, body: a.body },
        SubmitClass::Duplicate => Reply::Duplicate { status: a.status, body: a.body },
        SubmitClass::Refused => Reply::Declined { status: a.status, body: a.body },
        SubmitClass::Unavailable | SubmitClass::Unknown => Reply::Answered {
            status: a.status,
            body: a.body,
        },
    }
}

/// The event is the outcome of the phase that the connection is in.
pub open spec fn fits(phase: HostPhase, e: HostEvent) -> bool {
    match e {
        HostEvent::Frame(_) => phase == HostPhase::Greeting || phase == HostPhase::Asking,
        HostEvent::Locked(_) => phase == HostPhase::Locking,
        HostEvent::Decoded(_) => phase == HostPhase::Decoding,
        HostEvent::Bundle(_) => phase == HostPhase::Reading,
        HostEvent::Preflighted(_) => phase == HostPhase::Preflighting,
        HostEvent::Proved { .. } => phase == HostPhase::Proving,
        HostEvent::Submitted { .. } => phase == HostPhase::Submitting,
    }
}

fn is_op(f: &Frame, op: &str) -> (r: bool)
    ensures
        r == (opt_words(f.op) == Some(op@)),
{
    match &f.op {
        Some(t) => str_eq(t.as_str(), op),
        None => false,
    }
}

fn mismatch(theirs: u64) -> (r: String)
    ensures
        r@ == mismatch_text(theirs),
{
    let mut s: String = "protocol mismatch: extension speaks v".to_owned();
    push_dec(&mut s, theirs);
    s.append(", host speaks v");
    push_dec(&mut s, PROTOCOL);
    s.append(" — ");
    s.append(
        if theirs < PROTOCOL {
            "the extension"
        } else {
            "this host"
        },
    );
    s.append(
        " is older; update it. The two artifacts install separately, so skew is normal and refusing it is the feature.",
    );
    s
}

fn refused(why: String) -> (r: Vec<Reply>)
    ensures
        r@.len() == 1,
        r@[0] == (Reply::Refused { why }),
{
    let mut v: Vec<Reply> = Vec::new();
    v.push(Reply::Refused { why });
    v
}

fn with_steps(steps: Vec<String>) -> (r: Vec<Reply>)
    ensures
        r@.len() == steps@.len(),
        steps_first(r@, steps@),
{
    let mut v: Vec<Reply> = Vec::new();
    let mut i: usize = 0;
    while i < steps.len()
        invariant
            i <= steps@.len(),
            v@.len() == i,
            forall|k: int|
                0 <= k < i ==> (#[trigger] v@[k] matches Reply::Step { words } && words@
                    == steps@[k]@),
        decreases steps@.len() - i,
    {
        v.push(Reply::Step { words: steps[i].as_str().to_owned() });
        i += 1;
    }
    v
}

fn said(head: &str, why: &str) -> (r: String)
    ensures
        r@ == head@ + why@,
{
    let mut s: String = head.to_owned();
    s.append(why);
    s
}

impl HostRun {
    /// A connection that was just opened.
    pub fn new() -> (r: HostRun)
        ensures
            r.phase == HostPhase::Greeting,
            r.job is None,
    {
        HostRun { phase: HostPhase::Greeting, job: None }
    }

    fn stop(&mut self, why: String) -> (r: (Vec<Reply>, HostAction))
        ensures
            final(self).phase == HostPhase::Over,
            r.1 == HostAction::Stop,
            r.0@.len() == 1,
            r.0@[0] == (Reply::Refused { why }),
    {
        self.phase = HostPhase::Over;
        (refused(why), HostAction::Stop)
    }

    fn on_frame(&mut self, f: Frame) -> (r: (Vec<Reply>, HostAction))
        requires
            old(self).phase == HostPhase::Greeting || old(self).phase == HostPhase::Asking,
        ensures
            hosted(*old(self), *final(self), HostEvent::Frame(f), r.0@, r.1),
    {
        match self.phase {
            HostPhase::Greeting => {
                let theirs: u64 = match f.v {
                    Some(v) => v,
                    None => 0,
                };
                if !is_op(&f, "hello") || theirs == 0 {
                    return self.stop(NO_GREETING.to_owned());
                }
                if theirs != PROTOCOL {
                    return self.stop(mismatch(theirs));
                }
                self.phase = HostPhase::Asking;
                let mut v: Vec<Reply> = Vec::new();
                v.push(Reply::Hello { v: PROTOCOL });
                (v, HostAction::ReadFrame)
            },
            _ => {
                if !is_op(&f, "prove_and_submit") {
                    return self.stop(UNKNOWN_OP.to_owned());
                }
                match (f.bundle_b64, f.scan_url, f.node_url) {
                    (Some(bundle_b64), Some(scan_url), Some(node_url)) => {
                        self.phase = HostPhase::Locking;
                        self.job = Some(Job { bundle_b64, scan_url, node_url });
                        (Vec::new(), HostAction::TakeLock)
                    },
                    _ => self.stop(INCOMPLETE_JOB.to_owned()),
                }
            },
        }
    }

    /// Takes what came of the phase that the connection is in, and says what is
    /// written and what is done next.
    pub fn run(&mut self, e: HostEvent) -> (r: (Vec<Reply>, HostAction))
        requires
            fits(old(self).phase, e),
        ensures
            hosted(*old(self), *final(self), e, r.0@, r.1),
    {
        match e {
            HostEvent::Frame(f) => self.on_frame(f),
            HostEvent::Locked(Err(why)) => self.stop(why),
            HostEvent::Locked(Ok(_)) => {
                self.phase = HostPhase::Decoding;
                (Vec::new(), HostAction::Decode)
            },
            HostEvent::Decoded(Err(why)) => self.stop(
                said("bundle_b64 did not decode: ", why.as_str()),
            ),
            HostEvent::Decoded(Ok(_)) => {
                self.phase = HostPhase::Reading;
                (Vec::new(), HostAction::ReadBundle)
            },
            HostEvent::Bundle(Err(why)) => self.stop(
                said("witness bundle refused: ", why.as_str()),
            ),
            HostEvent::Bundle(Ok(_)) => {
                self.phase = HostPhase::Preflighting;
                (Vec::new(), HostAction::Preflight)
            },
            HostEvent::Preflighted(Err(why)) => self.stop(why.message()),
            HostEvent::Preflighted(Ok(_)) => {
                self.phase = HostPhase::Proving;
                (Vec::new(), HostAction::Prove)
            },
            HostEvent::Proved { steps, done } => {
                let mut v = with_steps(steps);
                match done {
                    Ok(_) => {
                        self.phase = HostPhase::Submitting;
                        (v, HostAction::Submit)
                    },
                    Err(why) => {
                        self.phase = HostPhase::Over;
                        v.push(Reply::Refused { why: why.message() });
                        (v, HostAction::Stop)
                    },
                }
            },
            HostEvent::Submitted { steps, done } => {
                let mut v = with_steps(steps);
                self.phase = HostPhase::Over;
                match done {
                    Ok(a) => v.push(last_word(a)),
                    Err(SendError::Incomplete { why, wire_bytes: _ }) => v.push(
                        Reply::Incomplete { why },
                    ),
                    Err(why) => v.push(Reply::Refused { why: why.message() }),
                }
                (v, HostAction::Stop)
            },
        }
    }
}

/// A reply that ends a connection.
pub open spec fn is_last(r: Reply) -> bool {
    ||| r is Accepted
    ||| r is Duplicate
    ||| r is Declined
    ||| r is Answered
    ||| r is Refused
    ||| r is Incomplete
}

/// A connection stops exactly with a last reply, and there is no other: every
/// reply before it is a greeting or a step, and whatever goes on holds none.
pub proof fn law_exactly_one_last_reply(
    was: HostRun,
    now: HostRun,
    e: HostEvent,
    replies: Seq<Reply>,
    next: HostAction,
)
    requires
        fits(was.phase, e),
        hosted(was, now, e, replies, next),
    ensures
        next == HostAction::Stop <==> now.phase == HostPhase::Over,
        next == HostAction::Stop ==> replies.len() > 0 && is_last(replies.last()),
        forall|i: int|
            0 <= i < replies.len() && is_last(#[trigger] replies[i]) ==> i == replies.len() - 1
                && next == HostAction::Stop,
{
}

/// A text stands under a key of a reply's object.
pub open spec fn has_text(r: Reply, key: Seq<char>, text: Seq<char>) -> bool {
    members(r).0.contains((key, text))
}

/// The last reply says what became of the transaction. `accepted` and
/// `duplicate` stand for exactly those answers of the node, and `answered` for
/// exactly those that are neither an admission nor a refusal; `refused` stands
/// for the node's refusals and for a submission that failed here, and
/// `incomplete` for exactly the one that may have landed. Whatever the node
/// answered, its status and its words are handed on as they came.
pub proof fn law_the_last_reply_is_typed(
    was: HostRun,
    now: HostRun,
    steps: Vec<String>,
    done: Result<SubmitAnswer, SendError>,
    replies: Seq<Reply>,
    next: HostAction,
)
    requires
        fits(was.phase, HostEvent::Submitted { steps, done }),
        hosted(was, now, HostEvent::Submitted { steps, done }, replies, next),
    ensures
        replies.last() is Accepted <==> (done matches Ok(a) && class_of(a.body@)
            == SubmitClass::Accepted),
        replies.last() is Duplicate <==> (done matches Ok(a) && class_of(a.body@)
            == SubmitClass::Duplicate),
        replies.last() is Answered <==> (done matches Ok(a) && (class_of(a.body@)
            == SubmitClass::Unavailable || class_of(a.body@) == SubmitClass::Unknown)),
        replies.last() is Incomplete <==> (done matches Err(SendError::Incomplete { .. })),
        has_text(
            replies.last(),
            "op"@,
            match done {
                Ok(a) => match class_of(a.body@) {
                    SubmitClass::Accepted => "accepted"@,
                    SubmitClass::Duplicate => "duplicate"@,
                    SubmitClass::Refused => "refused"@,
                    SubmitClass::Unavailable | SubmitClass::Unknown => "answered"@,
                },
                Err(SendError::Incomplete { .. }) => "incomplete"@,
                Err(_) => "refused"@,
            },
        ),
        done matches Ok(a) ==> has_text(replies.last(), "body"@, a.body@) && members(
            replies.last(),
        ).1 == seq![("status"@, a.status as u64)],
        done matches Ok(a) ==> (class_of(a.body@) == SubmitClass::Refused ==> has_text(
            replies.last(),
            "why"@,
            a.body@,
        )),
        done matches Err(SendError::Incomplete { why, .. }) ==> has_text(
            replies.last(),
            "why"@,
            why@,
        ),
{
    let texts = members(replies.last()).0;
    assert(texts.contains(texts[0]) && texts.contains(texts[1]));
    if done is Ok {
        assert(texts.contains(texts.last()));
    }
}

/// Nothing is proved before the lock is held and the facts were read, and
/// nothing is submitted before it was proved.
pub proof fn law_proving_comes_behind_the_lock(
    was: HostRun,
    now: HostRun,
    e: HostEvent,
    replies: Seq<Reply>,
    next: HostAction,
)
    requires
        fits(was.phase, e),
        hosted(was, now, e, replies, next),
    ensures
        next == HostAction::Decode ==> (e matches HostEvent::Locked(Ok(_))),
        next == HostAction::Prove ==> (e matches HostEvent::Preflighted(Ok(_))),
        next == HostAction::Submit ==> (e matches HostEvent::Proved { done: Ok(_), .. }),
{
}

/// A greeting is answered exactly if it says hello in this protocol, and a job is
/// taken exactly if it asks for a proof and names the bundle and both endpoints;
/// what goes on is just that job. Everything else that fails before a proof is
/// refused, and nothing follows.
pub proof fn law_only_whole_jobs_are_taken(
    was: HostRun,
    now: HostRun,
    e: HostEvent,
    replies: Seq<Reply>,
    next: HostAction,
)
    requires
        fits(was.phase, e),
        hosted(was, now, e, replies, next),
    ensures
        e matches HostEvent::Frame(f) ==> {
            &&& was.phase == HostPhase::Greeting ==> {
                &&& (next == HostAction::ReadFrame <==> opt_words(f.op) == Some("hello"@) && f.v
                    == Some(PROTOCOL))
                &&& (next != HostAction::ReadFrame ==> next == HostAction::Stop && replies.len() == 1
                    && replies[0] is Refused)
            }
            &&& was.phase != HostPhase::Greeting ==> {
                &&& (next == HostAction::TakeLock <==> opt_words(f.op) == Some(
                    "prove_and_submit"@,
                ) && f.bundle_b64 is Some && f.scan_url is Some && f.node_url is Some)
                &&& (next == HostAction::TakeLock ==> (now.job matches Some(j) && Some(
                    j.bundle_b64@,
                ) == opt_words(f.bundle_b64) && Some(j.scan_url@) == opt_words(f.scan_url) && Some(
                    j.node_url@,
                ) == opt_words(f.node_url)))
                &&& (next != HostAction::TakeLock ==> next == HostAction::Stop && replies.len() == 1
                    && replies[0] is Refused)
            }
        },
        !(e is Frame) && next != HostAction::Stop ==> now.job == was.job,
        e matches HostEvent::Locked(Err(_)) ==> next == HostAction::Stop,
        e matches HostEvent::Decoded(Err(_)) ==> next == HostAction::Stop,
        e matches HostEvent::Bundle(Err(_)) ==> next == HostAction::Stop,
        e matches HostEvent::Preflighted(Err(_)) ==> next == HostAction::Stop,
        e matches HostEvent::Proved { done: Err(_), .. } ==> next == HostAction::Stop,
        e is Submitted ==> next == HostAction::Stop,
{
}

/// The process that a lock's text names.
pub fn holder_of(text: &str) -> (r: Option<u32>)
    ensures
        match number_text(trim_of(text@), u32::MAX as nat) {
            Some(n) => r == Some(n as u32),
            None => r is None,
        },
{
    let v = chars_of(text);
    let t = trim(&v);
    match parse_number(&t, 4_294_967_295) {
        Some(n) => Some(n as u32),
        None => None,
    }
}

/// What an attempt to take the lock found.
#[derive(Clone, Debug, PartialEq, Eq)]
#[allow(inconsistent_fields)]
pub enum LockFound {
    /// The lock was free, and is taken.
    Free,
    /// It is held; by a process that is alive, where one is named.
    Held { alive: Option<u32> },
    /// It could not be tried.
    Failed { why: String },
}

/// What follows an attempt to take the lock.
#[derive(Clone, Debug, PartialEq, Eq)]
#[allow(inconsistent_fields)]
pub enum LockMove {
    Taken,
    /// Drop what a process that is gone left, and try again.
    ReapAndRetry,
    /// Drop what a process that is gone left, and give up.
    ReapAndRefuse { why: String },
    Refuse { why: String },
}

pub const CONTENDED: &'static str = "prove lock contended — try again";

/// How often the lock is tried.
pub const LOCK_TRIES: u64 = 2;

/// What is said where another proof is on its way.
pub open spec fn busy_text(pid: u32) -> Seq<char> {
    "another spend is proving right now (pid "@ + dec(pid as nat)
        + ") — one prove at a time: each is ~12 GB, and a second click is not a second wallet"@
}

/// What follows the `attempt`-th attempt, counted from 0: a holder that is alive
/// refuses, and what one that is gone left is dropped.
pub fn lock_move(attempt: u64, found: LockFound) -> (r: LockMove)
    ensures
        match found {
            LockFound::Free => r is Taken,
            LockFound::Failed { why } => r matches LockMove::Refuse { why: w } && w@
                == "prove lock unavailable: "@ + why@,
            LockFound::Held { alive: Some(pid) } => r matches LockMove::Refuse { why } && why@
                == busy_text(pid),
            LockFound::Held { alive: None } => if attempt + 1 < LOCK_TRIES {
                r is ReapAndRetry
            } else {
                r matches LockMove::ReapAndRefuse { why } && why@ == CONTENDED@
            },
        },
{
    match found {
        LockFound::Free => LockMove::Taken,
        LockFound::Failed { why } => LockMove::Refuse {
            why: said("prove lock unavailable: ", why.as_str()),
        },
        LockFound::Held { alive: Some(pid) } => {
            let mut s: String = "another spend is proving right now (pid ".to_owned();
            push_dec(&mut s, pid as u64);
            s.append(
                ") — one prove at a time: each is ~12 GB, and a second click is not a second wallet",
            );
            LockMove::Refuse { why: s }
        },
        LockFound::Held { alive: None } => {
            if attempt < LOCK_TRIES - 1 {
                LockMove::ReapAndRetry
            } else {
                LockMove::ReapAndRefuse { why: CONTENDED.to_owned() }
            }
        },
    }
}

} // verus!
