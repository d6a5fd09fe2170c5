//! Whom a send pays, and what a send shows and ends in.
//!
//! A name that resolves is not a name that is verified: a name's first payment,
//! and any payment to a name whose address changed, is refused until the
//! fingerprint is confirmed and pinned.
#[allow(unused_imports)]
use crate::cli::{fails, opt_str};
use crate::names::{NameEntry, NameRules, PinVerdict, Pins, Resolution, WalletRegistry};
#[allow(unused_imports)]
use crate::names::{
    fingerprint_text, judged, opt_text, resolved, EntryModel, PinModel, ResolutionModel,
};
use crate::net::{lossy_string, SubmitClass};
#[allow(unused_imports)]
use crate::net::lossy_text;
use crate::sends::SENDS_FILE;
use crate::spend::{SendError, SendOutcome, SendStep};
use crate::text::{chars_of, ends_with, find_from, push_dec};
#[allow(unused_imports)]
use crate::text::{dec, finishes, holds_text, lemma_holds, position};
use vstd::prelude::*;

verus! {

/// How a recipient is given.
#[derive(Clone, Debug, PartialEq, Eq)]
pub enum Target {
    /// A name that is resolved locally.
    Name(String),
    /// A payment URI.
    Uri(String),
    /// An address.
    Address(String),
    /// A contact's name.
    Contact(String),
}

pub const BOTH_GIVEN: &'static str = "send requires exactly one of --to ADDRESS or --to-contact NAME; both were provided";

pub const NONE_GIVEN: &'static str = "send requires exactly one of --to ADDRESS or --to-contact NAME";

/// How a recipient is given: a contact, or a text that is a name where it ends
/// in `.qmb`, a URI where it holds a colon, and an address otherwise.
pub fn target(to: Option<&str>, to_contact: Option<&str>) -> (r: Result<Target, String>)
    ensures
        match (to, to_contact) {
            (Some(_), Some(_)) => fails(r, BOTH_GIVEN@),
            (None, None) => fails(r, NONE_GIVEN@),
            (None, Some(c)) => r matches Ok(Target::Contact(n)) && n@ == c@,
            (Some(t), None) => if finishes(t@, ".qmb"@) {
                r matches Ok(Target::Name(n)) && n@ == t@
            } else if position(t@, ':') < t@.len() {
                r matches Ok(Target::Uri(n)) && n@ == t@
            } else {
                r matches Ok(Target::Address(n)) && n@ == t@
            },
        },
{
    match (to, to_contact) {
        (Some(_), Some(_)) => Err(BOTH_GIVEN.to_owned()),
        (None, None) => Err(NONE_GIVEN.to_owned()),
        (None, Some(c)) => Ok(Target::Contact(c.to_owned())),
        (Some(t), None) => {
            let v = chars_of(t);
            let tail = chars_of(".qmb");
            if ends_with(&v, &tail) {
                return Ok(Target::Name(t.to_owned()));
            }
            assert(v@.skip(0) =~= v@);
            if find_from(&v, ':', 0) < v.len() {
                Ok(Target::Uri(t.to_owned()))
            } else {
                Ok(Target::Address(t.to_owned()))
            }
        },
    }
}

pub const NO_REGISTRY: &'static str = "no synced name registry — run `qumbra-wallet names sync` first";

/// What is said of a name in its grace.
pub open spec fn grace_text(target: Seq<char>, reopens_at: u64) -> Seq<char> {
    "⚠ "@ + target + " is past expiry, inside its grace window (re-registrable at height "@ + dec(
        reopens_at as nat,
    ) + ") — its holder should renew"@
}

/// What is said of a name that does not resolve.
pub open spec fn unregistered_text(target: Seq<char>, scan_to: u64, synced_to: u64) -> Seq<char> {
    target + " is not registered as of height "@ + dec(scan_to as nat) + " (registry synced to "@
        + dec(synced_to as nat) + "). If it was registered recently, `names sync` further."@
}

/// Resolves a name for a payment: its entry, and what is to be said of it.
pub fn resolve_payee(
    target: &str,
    scan_to: u64,
    registry: Option<&WalletRegistry>,
    rules: &NameRules,
) -> (r: Result<(NameEntry, Option<String>), String>)
    requires
        registry matches Some(reg) ==> reg.wf(),
    ensures
        match registry {
            None => fails(r, NO_REGISTRY@),
            Some(reg) => match resolved(reg.model(), target@, scan_to, rules.grace) {
                ResolutionModel::Active(e) => r matches Ok((entry, note)) && entry@ == e
                    && note is None,
                ResolutionModel::Expiring { entry: e, reopens_at } => r matches Ok((entry, note))
                    && entry@ == e && (note matches Some(n) && n@ == grace_text(
                    target@,
                    reopens_at,
                )),
                ResolutionModel::Unknown => fails(
                    r,
                    unregistered_text(target@, scan_to, reg.synced_to),
                ),
            },
        },
        r is Ok <==> registry is Some && {
            let m = registry->0.model();
            let bare = crate::names::bare_of(target@);
            m.dom().contains(bare) && (scan_to < m[bare].expiry || scan_to < m[bare].expiry
                + rules.grace && scan_to < u64::MAX)
        },
        r matches Ok((entry, note)) ==> {
            let m = registry->0.model();
            let bare = crate::names::bare_of(target@);
            &&& entry@ == m[bare]
            &&& note is None <==> scan_to < m[bare].expiry
        },
{
    let reg = match registry {
        None => {
            return Err(NO_REGISTRY.to_owned());
        },
        Some(reg) => reg,
    };
    match reg.resolve(target, scan_to, rules) {
        Resolution::Active(e) => Ok((e, None)),
        Resolution::Expiring { entry, reopens_at } => {
            let mut s: String = "⚠ ".to_owned();
            s.append(target);
            s.append(" is past expiry, inside its grace window (re-registrable at height ");
            push_dec(&mut s, reopens_at);
            s.append(") — its holder should renew");
            Ok((entry, Some(s)))
        },
        Resolution::Unknown => {
            let mut e: String = target.to_owned();
            e.append(" is not registered as of height ");
            push_dec(&mut e, scan_to);
            e.append(" (registry synced to ");
            push_dec(&mut e, reg.synced_to);
            e.append("). If it was registered recently, `names sync` further.");
            Err(e)
        },
    }
}

/// What is said before a name's first payment.
pub open spec fn first_use_text(target: Seq<char>, fp: Seq<char>) -> Seq<char> {
    "first payment to "@ + target + ": verify the fingerprint "@ + fp
        + " with the payee OUT OF BAND (a name that resolves is not a name that is verified — D3), then pin it:\n  qumbra-wallet names pin "@
        + target + " "@ + fp + " --dir …\nand re-run this send."@
}

/// The alarm of a name that resolves to another address than was confirmed.
pub open spec fn rebind_text(target: Seq<char>, pinned: Seq<char>, now: Seq<char>) -> Seq<char> {
    "🔴 REBIND ALARM: "@ + target + " now resolves to "@ + now + ", but you confirmed "@ + pinned
        + ". This is either the name lapsing and being re-registered (possibly by someone else!) or a records divergence. Do NOT pay until you re-confirm the NEW fingerprint out of band; then: qumbra-wallet names pin "@
        + target + " "@ + now + " --dir …"@
}

pub const UNDECODABLE_ENTRY: &'static str = "registry entry does not decode as an address — re-sync the registry";

/// What is said of a name that may be paid.
pub open spec fn payee_text(target: Seq<char>, short: Seq<char>, e: EntryModel) -> Seq<char> {
    target + " → "@ + short + " (pinned ✓; registered at "@ + dec(e.registered as nat)
        + ", expires "@ + dec(e.expiry as nat) + ")"@
}

fn first_use(target: &str, fp: &str) -> (r: String)
    ensures
        r@ == first_use_text(target@, fp@),
{
    let mut e: String = "first payment to ".to_owned();
    e.append(target);
    e.append(": verify the fingerprint ");
    e.append(fp);
    e.append(
        " with the payee OUT OF BAND (a name that resolves is not a name that is verified — D3), then pin it:\n  qumbra-wallet names pin ",
    );
    e.append(target);
    e.append(" ");
    e.append(fp);
    e.append(" --dir …\nand re-run this send.");
    e
}

fn rebind(target: &str, pinned: &str, now: &str) -> (r: String)
    ensures
        r@ == rebind_text(target@, pinned@, now@),
{
    let mut e: String = "🔴 REBIND ALARM: ".to_owned();
    e.append(target);
    e.append(" now resolves to ");
    e.append(now);
    e.append(", but you confirmed ");
    e.append(pinned);
    e.append(
        ". This is either the name lapsing and being re-registered (possibly by someone else!) or a records divergence. Do NOT pay until you re-confirm the NEW fingerprint out of band; then: qumbra-wallet names pin ",
    );
    e.append(target);
    e.append(" ");
    e.append(now);
    e.append(" --dir …");
    e
}

/// Admits a payment to a name whose entry's short address is `short`, where it
/// decodes: only to the fingerprint that was confirmed.
pub fn admit_payee(target: &str, entry: &NameEntry, pins: &Pins, short: Option<&str>) -> (r: Result<
    String,
    String,
>)
    requires
        pins.wf(),
    ensures
        ({
            let fp = fingerprint_text(entry@.address, opt_text(short));
            match judged(pins.model(), target@, fp) {
                PinModel::FirstUse { fingerprint } => fails(
                    r,
                    first_use_text(target@, fingerprint),
                ),
                PinModel::Rebind { pinned, resolved: now } => fails(
                    r,
                    rebind_text(target@, pinned, now),
                ),
                PinModel::Match => match short {
                    None => fails(r, UNDECODABLE_ENTRY@),
                    Some(s) => r matches Ok(line) && line@ == payee_text(target@, s@, entry@),
                },
            }
        }),
        r is Ok <==> short is Some && pins.model().dom().contains(
            crate::names::bare_of(target@),
        ) && pins.model()[crate::names::bare_of(target@)] == (short->0)@,
{
    match pins.check(target, &entry.address, short) {
        PinVerdict::FirstUse { fingerprint } => Err(first_use(target, fingerprint.as_str())),
        PinVerdict::Rebind { pinned, resolved } => Err(
            rebind(target, pinned.as_str(), resolved.as_str()),
        ),
        PinVerdict::Match => match short {
            None => Err(UNDECODABLE_ENTRY.to_owned()),
            Some(s) => {
                let mut l: String = target.to_owned();
                l.append(" → ");
                l.append(s);
                l.append(" (pinned ✓; registered at ");
                push_dec(&mut l, entry.registered);
                l.append(", expires ");
                push_dec(&mut l, entry.expiry);
                l.append(")");
                Ok(l)
            },
        },
    }
}

/// A name is paid only where its fingerprint is the one that was pinned for it.
pub proof fn law_only_pinned_names_are_paid(
    pins: Map<Seq<char>, Seq<char>>,
    target: Seq<char>,
    fp: Seq<char>,
)
    ensures
        judged(pins, target, fp) is Match <==> pins.dom().contains(crate::names::bare_of(target))
            && pins[crate::names::bare_of(target)] == fp,
{
}

/// A line that is shown: beside the result, or as part of it.
#[derive(Clone, Debug, PartialEq, Eq)]
#[allow(inconsistent_fields)]
pub enum Line {
    /// Progress and warnings.
    Aside(String),
    /// The result.
    Result(String),
}

/// The line is this text beside the result.
pub open spec fn is_aside(l: Line, t: Seq<char>) -> bool {
    l matches Line::Aside(s) && s@ == t
}

/// The line is this text of the result.
pub open spec fn is_result(l: Line, t: Seq<char>) -> bool {
    l matches Line::Result(s) && s@ == t
}

/// What is said of the address that a URI carries.
pub open spec fn uri_text(short: Seq<char>) -> Seq<char> {
    "URI → "@ + short
        + " — verify this fingerprint with the payee out of band; a URI that merely parses is not a verified address"@
}

pub open spec fn label_text(label: Seq<char>) -> Seq<char> {
    "URI label (display only, NOT transmitted): "@ + label
}

pub open spec fn memo_text(memo: Seq<u8>) -> Seq<char> {
    "URI memo (display only, NOT transmitted; "@ + dec(memo.len()) + " bytes): "@ + lossy_text(memo)
}

/// The lines that a payment URI is shown with: its address, then its label and
/// its memo where it has them. Neither is ever sent.
pub fn uri_lines(short: &str, label: Option<&str>, memo: Option<&[u8]>) -> (r: Vec<String>)
    ensures
        r@.len() == 1 + (if label is Some {
            1int
        } else {
            0int
        }) + (if memo is Some {
            1int
        } else {
            0int
        }),
        r@[0]@ == uri_text(short@),
        label matches Some(l) ==> r@[1]@ == label_text(l@),
        memo matches Some(m) ==> r@.last()@ == memo_text(m@),
{
    let mut out: Vec<String> = Vec::new();
    let mut s: String = "URI → ".to_owned();
    s.append(short);
    s.append(
        " — verify this fingerprint with the payee out of band; a URI that merely parses is not a verified address",
    );
    out.push(s);
    if let Some(l) = label {
        let mut s: String = "URI label (display only, NOT transmitted): ".to_owned();
        s.append(l);
        out.push(s);
    }
    if let Some(m) = memo {
        assert(m@.len() == m.len());
        let mut s: String = "URI memo (display only, NOT transmitted; ".to_owned();
        push_dec(&mut s, m.len() as u64);
        s.append(" bytes): ");
        s.append(lossy_string(m).as_str());
        out.push(s);
    }
    out
}

/// The lines that a step is shown with; `secs` is how long the proof took.
pub open spec fn step_shown(step: SendStep, secs: Seq<char>, lines: Seq<Line>) -> bool {
    match step {
        SendStep::Resolved { recipient_short, contact } => match contact {
            Some(name) => lines.len() == 1 && is_aside(
                lines[0],
                "→ "@ + name@ + " ("@ + recipient_short@ + ")"@,
            ),
            None => lines.len() == 0,
        },
        SendStep::CoinbaseUnavailable { why } => lines.len() == 1 && is_aside(
            lines[0],
            "🔴 "@ + why@,
        ),
        SendStep::Selected { spendable: _, skipped_spent, mined } => {
            let skipped = "note: "@ + dec(skipped_spent as nat)
                + " already-spent note(s) skipped by input selection (their nullifiers are on the chain)"@;
            let coins = "note: "@ + dec(mined as nat)
                + " matured coinbase note(s) this wallet mined are among the candidate inputs"@;
            if skipped_spent > 0 && mined > 0 {
                lines.len() == 2 && is_aside(lines[0], skipped) && is_aside(lines[1], coins)
            } else if skipped_spent > 0 {
                lines.len() == 1 && is_aside(lines[0], skipped)
            } else if mined > 0 {
                lines.len() == 1 && is_aside(lines[0], coins)
            } else {
                lines.len() == 0
            }
        },
        SendStep::Tree {
            held,
            fetched,
            anchor_count,
            anchor_root,
            node_tip,
            finalized,
            anchor_behind,
        } => {
            let first = "tree: "@ + dec(held as nat) + " leaves held ("@ + dec(fetched as nat)
                + " new); anchor at "@ + dec(anchor_count as nat) + " leaves, root "@ + anchor_root@
                + " (node tip "@ + dec(node_tip as nat) + ", finalized "@
                + crate::sync::height_text(finalized) + ")"@;
            let behind = "  (the anchor is "@ + dec(anchor_behind as nat)
                + " leaves behind what this node served — a witness must be built against a FINALIZED root, so this is normal, not a lag)"@;
            if anchor_behind > 0 {
                lines.len() == 2 && is_aside(lines[0], first) && is_aside(lines[1], behind)
            } else {
                lines.len() == 1 && is_aside(lines[0], first)
            }
        },
        SendStep::Proving => lines.len() == 1 && is_aside(
            lines[0],
            "proving (real STARK — this takes seconds and gigabytes)…"@,
        ),
        SendStep::Built { amount, fee, change, used_dummy } => lines.len() == 1 && is_result(
            lines[0],
            "built: "@ + dec(amount as nat) + " bessel, fee "@ + dec(fee as nat) + ", change "@
                + dec(change as nat) + " — proved in "@ + secs + " s"@ + (if used_dummy {
                " (single real note + dummy slot)"@
            } else {
                Seq::empty()
            }),
        ),
        SendStep::Recorded => lines.len() == 1 && is_aside(
            lines[0],
            "note: the recipient was recorded locally in "@ + SENDS_FILE@
                + " (0600). It is NOT on the chain and a restore from your mnemonic will not bring it back."@,
        ),
        SendStep::Warning(w) => lines.len() == 1 && is_aside(lines[0], "warning: "@ + w@),
        SendStep::Submitting => lines.len() == 0,
        SendStep::Answered { status, body } => lines.len() == 1 && is_result(
            lines[0],
            "node ["@ + dec(status as nat) + "]: "@ + body@,
        ),
    }
}

fn around(head: &str, mid: &str, tail: &str) -> (r: String)
    ensures
        r@ == head@ + mid@ + tail@,
{
    let mut s: String = head.to_owned();
    s.append(mid);
    s.append(tail);
    s
}

fn counted(n: usize, tail: &str) -> (r: String)
    ensures
        r@ == "note: "@ + dec(n as nat) + tail@,
{
    let mut s: String = "note: ".to_owned();
    push_dec(&mut s, n as u64);
    s.append(tail);
    s
}

/// The step of a tree that caught up, in words.
fn tree_line(
    held: u64,
    fetched: u64,
    anchor_count: u64,
    anchor_root: &str,
    node_tip: u64,
    finalized: Option<u64>,
) -> (r: String)
    ensures
        r@ == "tree: "@ + dec(held as nat) + " leaves held ("@ + dec(fetched as nat)
            + " new); anchor at "@ + dec(anchor_count as nat) + " leaves, root "@ + anchor_root@
            + " (node tip "@ + dec(node_tip as nat) + ", finalized "@ + crate::sync::height_text(
            finalized,
        ) + ")"@,
{
    let mut s: String = "tree: ".to_owned();
    push_dec(&mut s, held);
    s.append(" leaves held (");
    push_dec(&mut s, fetched);
    s.append(" new); anchor at ");
    push_dec(&mut s, anchor_count);
    s.append(" leaves, root ");
    s.append(anchor_root);
    s.append(" (node tip ");
    push_dec(&mut s, node_tip);
    s.append(", finalized ");
    match finalized {
        Some(h) => push_dec(&mut s, h),
        None => s.append("none"),
    }
    s.append(")");
    s
}

fn built_line(amount: u64, fee: u64, change: u64, secs: &str, used_dummy: bool) -> (r: String)
    ensures
        r@ == "built: "@ + dec(amount as nat) + " bessel, fee "@ + dec(fee as nat) + ", change "@
            + dec(change as nat) + " — proved in "@ + secs@ + " s"@ + (if used_dummy {
            " (single real note + dummy slot)"@
        } else {
            Seq::empty()
        }),
{
    let mut s: String = "built: ".to_owned();
    push_dec(&mut s, amount);
    s.append(" bessel, fee ");
    push_dec(&mut s, fee);
    s.append(", change ");
    push_dec(&mut s, change);
    s.append(" — proved in ");
    s.append(secs);
    s.append(" s");
    if used_dummy {
        s.append(" (single real note + dummy slot)");
    } else {
        assert(s@ + Seq::<char>::empty() =~= s@);
    }
    s
}

/// The lines that a step is shown with.
pub fn step_lines(step: &SendStep, secs: &str) -> (r: Vec<Line>)
    ensures
        step_shown(*step, secs@, r@),
{
    let mut out: Vec<Line> = Vec::new();
    match step {
        SendStep::Resolved { recipient_short, contact } => {
            if let Some(name) = contact {
                let mut s: String = "→ ".to_owned();
                s.append(name.as_str());
                s.append(" (");
                s.append(recipient_short.as_str());
                s.append(")");
                out.push(Line::Aside(s));
            }
        },
        SendStep::CoinbaseUnavailable { why } => {
            let mut s: String = "🔴 ".to_owned();
            s.append(why.as_str());
            out.push(Line::Aside(s));
        },
        SendStep::Selected { spendable: _, skipped_spent, mined } => {
            if *skipped_spent > 0 {
                out.push(
                    Line::Aside(
                        counted(
                            *skipped_spent,
                            " already-spent note(s) skipped by input selection (their nullifiers are on the chain)",
                        ),
                    ),
                );
            }
            if *mined > 0 {
                out.push(
                    Line::Aside(
                        counted(
                            *mined,
                            " matured coinbase note(s) this wallet mined are among the candidate inputs",
                        ),
                    ),
                );
            }
        },
        SendStep::Tree {
            held,
            fetched,
            anchor_count,
            anchor_root,
            node_tip,
            finalized,
            anchor_behind,
        } => {
            out.push(
                Line::Aside(
                    tree_line(
                        *held,
                        *fetched,
                        *anchor_count,
                        anchor_root.as_str(),
                        *node_tip,
                        *finalized,
                    ),
                ),
            );
            if *anchor_behind > 0 {
                let mut s: String = "  (the anchor is ".to_owned();
                push_dec(&mut s, *anchor_behind);
                s.append(
                    " leaves behind what this node served — a witness must be built against a FINALIZED root, so this is normal, not a lag)",
                );
                out.push(Line::Aside(s));
            }
        },
        SendStep::Proving => {
            out.push(
                Line::Aside("proving (real STARK — this takes seconds and gigabytes)…".to_owned()),
            );
        },
        SendStep::Built { amount, fee, change, used_dummy } => {
            out.push(Line::Result(built_line(*amount, *fee, *change, secs, *used_dummy)));
        },
        SendStep::Recorded => {
            out.push(
                Line::Aside(
                    around(
                        "note: the recipient was recorded locally in ",
                        SENDS_FILE,
                        " (0600). It is NOT on the chain and a restore from your mnemonic will not bring it back.",
                    ),
                ),
            );
        },
        SendStep::Warning(w) => {
            let mut s: String = "warning: ".to_owned();
            s.append(w.as_str());
            out.push(Line::Aside(s));
        },
        SendStep::Submitting => {},
        SendStep::Answered { status, body } => {
            let mut s: String = "node [".to_owned();
            push_dec(&mut s, *status as u64);
            s.append("]: ");
            s.append(body.as_str());
            out.push(Line::Result(s));
        },
    }
    out
}

/// What a send ends in: whether the transaction's bytes are kept where a file
/// was named, the lines that are shown, and the failure.
#[derive(Debug, PartialEq, Eq)]
pub struct SendEnd {
    pub keep: Option<Vec<u8>>,
    pub lines: Vec<Line>,
    pub failure: Option<String>,
}

pub const DISCARDED: &'static str = "warning: --no-submit without --out discarded this proof — nothing was written and nothing was sent.";

/// What is said of a send that was not submitted.
pub open spec fn unsubmitted(lines: Seq<Line>, out: Option<Seq<char>>) -> bool {
    let note = "note: no "@ + SENDS_FILE@
        + " record was written — this send was not submitted, and the local record exists to name the recipient of a send that is actually on its way."@;
    if out is None {
        lines.len() == 3 && is_result(lines[0], "not submitted (--no-submit)."@) && is_aside(
            lines[1],
            DISCARDED@,
        ) && is_aside(lines[2], note)
    } else {
        lines.len() == 2 && is_result(lines[0], "not submitted (--no-submit)."@) && is_aside(
            lines[1],
            note,
        )
    }
}

/// What is said of a submission that did not complete.
pub open spec fn incomplete_end(why: Seq<char>, out: Option<Seq<char>>) -> Seq<char> {
    match out {
        Some(p) => why + " They are saved at "@ + p + "."@,
        None => why + " Re-run with --out FILE to keep them next time."@,
    }
}

/// What is said of an answer that was no acceptance: a node that did not judge
/// refused nothing, and an answer that is not known is not told as a refusal. The
/// node's own words stand in both of the others.
pub open spec fn answered_end(class: SubmitClass, body: Seq<char>, out: Option<Seq<char>>) -> Seq<
    char,
> {
    if class == SubmitClass::Unavailable {
        match out {
            Some(p) => "the node did not judge this transaction — that is its state, not your transaction's. Retry with the saved bytes at "@
                + p + "; the transaction itself is unchanged."@,
            None => "the node did not judge this transaction — that is its state, not your transaction's. Retry; the transaction itself is unchanged."@,
        }
    } else if class == SubmitClass::Unknown {
        "the node gave an answer that this wallet does not know: "@ + body
    } else {
        "the node refused this transaction: "@ + body
    }
}

/// What a send ends in. The bytes of a proof are kept on every way that has
/// them.
pub open spec fn is_end(
    result: Result<SendOutcome, SendError>,
    out: Option<Seq<char>>,
    end: SendEnd,
) -> bool {
    match result {
        Ok(o) => {
            &&& end.keep matches Some(b) && b@ == o.wire_bytes@
            &&& end.failure is None
            &&& if o.answer is None {
                unsubmitted(end.lines@, out)
            } else {
                end.lines@.len() == 0
            }
        },
        Err(SendError::Refused(why)) => {
            &&& end.keep is None
            &&& end.lines@.len() == 0
            &&& end.failure matches Some(f) && f@ == why@
        },
        Err(SendError::Incomplete { why, wire_bytes }) => {
            &&& end.keep matches Some(b) && b@ == wire_bytes@
            &&& end.lines@.len() == 0
            &&& end.failure matches Some(f) && f@ == incomplete_end(why@, out)
        },
        Err(SendError::Answered { class, status: _, body, wire_bytes }) => {
            &&& end.keep matches Some(b) && b@ == wire_bytes@
            &&& end.lines@.len() == 0
            &&& end.failure matches Some(f) && f@ == answered_end(class, body@, out)
        },
    }
}

fn unsubmitted_lines(out: Option<&str>) -> (r: Vec<Line>)
    ensures
        unsubmitted(r@, opt_str(out)),
{
    let mut lines: Vec<Line> = Vec::new();
    lines.push(Line::Result("not submitted (--no-submit).".to_owned()));
    if out.is_none() {
        lines.push(Line::Aside(DISCARDED.to_owned()));
    }
    lines.push(
        Line::Aside(
            around(
                "note: no ",
                SENDS_FILE,
                " record was written — this send was not submitted, and the local record exists to name the recipient of a send that is actually on its way.",
            ),
        ),
    );
    lines
}

/// What a send ends in; `out` is the file that was named for the bytes.
pub fn send_end(result: Result<SendOutcome, SendError>, out: Option<&str>) -> (r: SendEnd)
    ensures
        is_end(result, opt_str(out), r),
{
    match result {
        Ok(o) => {
            let lines = if o.answer.is_none() {
                unsubmitted_lines(out)
            } else {
                Vec::new()
            };
            SendEnd { keep: Some(o.wire_bytes), lines, failure: None }
        },
        Err(SendError::Refused(why)) => SendEnd {
            keep: None,
            lines: Vec::new(),
            failure: Some(why),
        },
        Err(SendError::Incomplete { why, wire_bytes }) => {
            let mut f = why;
            match out {
                Some(p) => {
                    f.append(" They are saved at ");
                    f.append(p);
                    f.append(".");
                },
                None => f.append(" Re-run with --out FILE to keep them next time."),
            }
            SendEnd { keep: Some(wire_bytes), lines: Vec::new(), failure: Some(f) }
        },
        Err(SendError::Answered { class, status: _, body, wire_bytes }) => {
            let f = if matches!(class, SubmitClass::Unavailable) {
                match out {
                    Some(p) => around(
                        "the node did not judge this transaction — that is its state, not your transaction's. Retry with the saved bytes at ",
                        p,
                        "; the transaction itself is unchanged.",
                    ),
                    None => "the node did not judge this transaction — that is its state, not your transaction's. Retry; the transaction itself is unchanged.".to_owned(),
                }
            } else {
                let mut f: String = if matches!(class, SubmitClass::Unknown) {
                    "the node gave an answer that this wallet does not know: ".to_owned()
                } else {
                    "the node refused this transaction: ".to_owned()
                };
                f.append(body.as_str());
                f
            };
            SendEnd { keep: Some(wire_bytes), lines: Vec::new(), failure: Some(f) }
        },
    }
}

/// Every end of a send that has the transaction's bytes keeps them; only a
/// refusal before anything was built has none.
pub proof fn law_bytes_are_kept_on_every_way(
    result: Result<SendOutcome, SendError>,
    out: Option<Seq<char>>,
    end: SendEnd,
)
    requires
        is_end(result, out, end),
    ensures
        end.keep is None <==> (result matches Err(SendError::Refused(_))),
        result is Err <==> end.failure is Some,
{
}

/// What a proved send is shown with: one line of the result, with the amount, the
/// fee and the change that it has.
pub proof fn law_a_built_send_shows_its_figures(
    amount: u64,
    fee: u64,
    change: u64,
    used_dummy: bool,
    secs: Seq<char>,
    lines: Seq<Line>,
)
    requires
        step_shown(SendStep::Built { amount, fee, change, used_dummy }, secs, lines),
    ensures
        lines.len() == 1,
        lines[0] matches Line::Result(s) && holds_text(
            s@,
            dec(amount as nat) + " bessel, fee "@ + dec(fee as nat) + ", change "@ + dec(
                change as nat,
            ),
        ),
{
    let figures = dec(amount as nat) + " bessel, fee "@ + dec(fee as nat) + ", change "@ + dec(
        change as nat,
    );
    let note = if used_dummy {
        " (single real note + dummy slot)"@
    } else {
        Seq::empty()
    };
    let rest = " — proved in "@ + secs + " s"@ + note;
    if let Line::Result(s) = lines[0] {
        assert(s@ =~= "built: "@ + figures + rest);
        lemma_holds("built: "@, figures, rest);
    }
}

/// What an answer of the node is shown as: its status and its own words, as part of
/// the result.
pub proof fn law_an_answer_is_shown_as_it_came(
    status: u16,
    body: String,
    secs: Seq<char>,
    lines: Seq<Line>,
)
    requires
        step_shown(SendStep::Answered { status, body }, secs, lines),
    ensures
        lines.len() == 1,
        lines[0] matches Line::Result(s) && holds_text(s@, body@) && holds_text(
            s@,
            "["@ + dec(status as nat) + "]"@,
        ),
{
    reveal_strlit("node [");
    reveal_strlit("[");
    reveal_strlit("]: ");
    reveal_strlit("]");
    if let Line::Result(s) = lines[0] {
        let n = dec(status as nat);
        assert(s@ =~= ("node ["@ + n + "]: "@) + body@ + Seq::<char>::empty());
        lemma_holds("node ["@ + n + "]: "@, body@, Seq::empty());
        let front = "node ["@.take(5);
        let back = "]: "@.skip(1) + body@;
        assert(s@ =~= front + ("["@ + n + "]"@) + back);
        lemma_holds(front, "["@ + n + "]"@, back);
    }
}

} // verus!
