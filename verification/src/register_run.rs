//! One run of a registration: what is saved, observed, sent and said, from what
//! is kept of it and the height it is run at.
//!
//! Whatever is to be sent is saved first, and a reveal that was built once is
//! sent again as it is: a proof is random, so that building it anew would give
//! another transaction.
use crate::bytes32::copied;
use crate::names::{bare_name, NameOp, NameRules};
#[allow(unused_imports)]
use crate::names::bare_of;
use crate::net::{SubmitAnswer, SubmitClass};
#[allow(unused_imports)]
use crate::net::class_of;
#[allow(unused_imports)]
use crate::register::{
    in_flight, law_registration_reads_back, register_of, register_text, sound, step_at, window_fits,
    RegisterModel,
};
use crate::register::{RegisterState, RegisterStep};
use crate::text::{number_of, push_dec, str_eq};
#[allow(unused_imports)]
use crate::text::{dec, number_text, parse_fault_text};
use vstd::prelude::*;

verus! {

/// A registration that is gone on with, or one to be prepared.
#[derive(Clone, Debug)]
pub enum Flight {
    Resume(RegisterState),
    Prepare,
}

/// What is said where another name's registration is in flight.
pub open spec fn other_flight_text(name: Seq<char>) -> Seq<char> {
    "a registration for "@ + name + " is already in flight"@
}

/// The registration of a name: the one in flight, or one to be prepared.
pub fn flight(name: &str, kept: Option<&str>, rules: &NameRules) -> (r: Result<Flight, String>)
    ensures
        match in_flight(kept, *rules) {
            Err(why) => r matches Err(e) && e@ == why,
            Ok(None) => r matches Ok(Flight::Prepare),
            Ok(Some(m)) => if m.name == bare_of(name@) {
                r matches Ok(Flight::Resume(s)) && s@ == m
            } else {
                r matches Err(e) && e@ == other_flight_text(m.name)
            },
        },
{
    let bare = bare_name(name);
    match RegisterState::load(kept, rules) {
        Err(e) => Err(e),
        Ok(None) => Ok(Flight::Prepare),
        Ok(Some(state)) => {
            if str_eq(state.name.as_str(), bare.as_str()) {
                return Ok(Flight::Resume(state));
            }
            let mut e: String = "a registration for ".to_owned();
            e.append(state.name.as_str());
            e.append(" is already in flight");
            Err(e)
        },
    }
}

/// Records the height at which the commit was mined. The registration in flight
/// has to be the name's own, and the height a number.
pub fn record_commit(name: &str, kept: Option<&str>, height: &str, rules: &NameRules) -> (r: Result<
    RegisterState,
    String,
>)
    ensures
        match in_flight(kept, *rules) {
            Err(why) => r matches Err(e) && e@ == why,
            Ok(None) => r matches Err(e) && e@ == "no registration in flight"@,
            Ok(Some(m)) => if m.name != bare_of(name@) {
                r matches Err(e) && e@ == "in-flight registration is for "@ + m.name + ", not "@
                    + bare_of(name@)
            } else {
                match number_text(height@, u64::MAX as nat) {
                    Some(h) => r matches Ok(s) && s@ == (RegisterModel {
                        committed_at: Some(h as u64),
                        ..m
                    }),
                    None => r matches Err(e) && e@ == parse_fault_text(height@),
                }
            },
        },
{
    let bare = bare_name(name);
    match RegisterState::load(kept, rules) {
        Err(e) => Err(e),
        Ok(None) => Err("no registration in flight".to_owned()),
        Ok(Some(mut state)) => {
            if !str_eq(state.name.as_str(), bare.as_str()) {
                let mut e: String = "in-flight registration is for ".to_owned();
                e.append(state.name.as_str());
                e.append(", not ");
                e.append(bare.as_str());
                return Err(e);
            }
            match number_of(height) {
                Err(e) => Err(e),
                Ok(h) => {
                    state.committed_at = Some(h);
                    Ok(state)
                },
            }
        },
    }
}

/// What is said once a commit's height was recorded; `height` as it was given.
pub fn recorded_text(name: &str, height: &str) -> (r: String)
    ensures
        r@ == "recorded commit height "@ + height@ + "; re-run `names register "@ + bare_of(name@)
            + " …` once the window opens (~10 min)"@,
{
    let mut s: String = "recorded commit height ".to_owned();
    s.append(height);
    s.append("; re-run `names register ");
    s.append(bare_name(name).as_str());
    s.append(" …` once the window opens (~10 min)");
    s
}

/// What one run does, behind what it saves.
#[derive(Clone, Debug)]
#[allow(inconsistent_fields)]
pub enum RegisterAction {
    /// Sync the names and look for the reveal; the run goes on with what was
    /// found.
    Observe,
    /// Build a transaction around the op and send it, then say `done`.
    Commit { op: NameOp, label: String, done: String },
    /// It is too early: say so and fail.
    Wait { why: String },
    /// Say `notice`, build the reveal, keep it, send it, then say `done`.
    Reveal { notice: String, op: NameOp, label: String, done: String },
    /// Say `notice`, send these bytes again, then say `done`.
    Repost { notice: String, wire: Vec<u8>, label: String, done: String },
    /// Drop what is kept, then say `done`.
    Finish { done: String },
    /// Drop what is kept, then fail with `why`.
    Close { why: String },
}

/// What one run is to do: `save` is written, where there is one, before the
/// action.
#[derive(Clone, Debug)]
pub struct RegisterMove {
    pub save: Option<String>,
    pub action: RegisterAction,
}

/// Why a run fails before the window opens.
pub open spec fn wait_text(at: u64) -> Seq<char> {
    "the reveal window opens at height "@ + dec(at as nat)
        + " (~10 min after the commit); re-run then"@
}

pub const CLOSED_TEXT: &'static str = "the reveal window closed unrevealed — the commit is dead and its salt will not be reused. Start over: `names register` (a fresh salt costs one more relay fee).";

/// What is said before a reveal is built.
pub open spec fn revealing_text(name: Seq<char>, closes: u64, fee: u64) -> Seq<char> {
    "revealing "@ + name + " (window closes at "@ + dec(closes as nat) + "); name fee "@ + dec(
        fee as nat,
    ) + " bessel, BURNED"@
}

/// What is said before a kept reveal is sent again.
pub open spec fn reposting_text(name: Seq<char>, closes: u64, fee: u64) -> Seq<char> {
    "re-posting the saved reveal for "@ + name + " byte-identically (window closes at "@ + dec(
        closes as nat,
    ) + "); name fee "@ + dec(fee as nat) + " bessel, BURNED"@
}

/// What is said behind a reveal.
pub open spec fn revealed_text(name: Seq<char>, closes: u64, no_submit: bool) -> Seq<char> {
    if no_submit {
        "reveal prepared but NOT submitted — exact retry bytes and salt retained. Re-run without --no-submit before height "@
            + dec(closes as nat) + "."@
    } else {
        "reveal posted, not yet confirmed — retry bytes and salt retained until chain inclusion or height "@
            + dec(closes as nat) + ". Re-run `names register "@ + name
            + " …` to check and re-post the exact transaction."@
    }
}

/// What is said once the reveal was seen on chain.
pub open spec fn confirmed_text(name: Seq<char>, at: u64) -> Seq<char> {
    "reveal confirmed at height "@ + dec(at as nat) + " — "@ + name
        + ".qmb is yours for 365 epochs; registration retry state cleared. Pin your own fingerprint for your records."@
}

/// What is said once a commit was sent.
pub open spec fn committed_text(name: Seq<char>) -> Seq<char> {
    "commit posted. Once mined at height H: `names register "@ + name + " --committed-at H --dir …`"@
}

fn wait_line(at: u64) -> (r: String)
    ensures
        r@ == wait_text(at),
{
    let mut s: String = "the reveal window opens at height ".to_owned();
    push_dec(&mut s, at);
    s.append(" (~10 min after the commit); re-run then");
    s
}

fn revealing_line(name: &str, closes: u64, fee: u64) -> (r: String)
    ensures
        r@ == revealing_text(name@, closes, fee),
{
    let mut s: String = "revealing ".to_owned();
    s.append(name);
    s.append(" (window closes at ");
    push_dec(&mut s, closes);
    s.append("); name fee ");
    push_dec(&mut s, fee);
    s.append(" bessel, BURNED");
    s
}

fn reposting_line(name: &str, closes: u64, fee: u64) -> (r: String)
    ensures
        r@ == reposting_text(name@, closes, fee),
{
    let mut s: String = "re-posting the saved reveal for ".to_owned();
    s.append(name);
    s.append(" byte-identically (window closes at ");
    push_dec(&mut s, closes);
    s.append("); name fee ");
    push_dec(&mut s, fee);
    s.append(" bessel, BURNED");
    s
}

fn revealed_line(name: &str, closes: u64, no_submit: bool) -> (r: String)
    ensures
        r@ == revealed_text(name@, closes, no_submit),
{
    if no_submit {
        let mut s: String =
            "reveal prepared but NOT submitted — exact retry bytes and salt retained. Re-run without --no-submit before height ".to_owned();
        push_dec(&mut s, closes);
        s.append(".");
        s
    } else {
        let mut s: String =
            "reveal posted, not yet confirmed — retry bytes and salt retained until chain inclusion or height ".to_owned();
        push_dec(&mut s, closes);
        s.append(". Re-run `names register ");
        s.append(name);
        s.append(" …` to check and re-post the exact transaction.");
        s
    }
}

fn confirmed_line(name: &str, at: u64) -> (r: String)
    ensures
        r@ == confirmed_text(name@, at),
{
    let mut s: String = "reveal confirmed at height ".to_owned();
    push_dec(&mut s, at);
    s.append(" — ");
    s.append(name);
    s.append(
        ".qmb is yours for 365 epochs; registration retry state cleared. Pin your own fingerprint for your records.",
    );
    s
}

fn committed_line(name: &str) -> (r: String)
    ensures
        r@ == committed_text(name@),
{
    let mut s: String = "commit posted. Once mined at height H: `names register ".to_owned();
    s.append(name);
    s.append(" --committed-at H --dir …`");
    s
}

fn label_line(head: &str, name: &str, tail: &str) -> (r: String)
    ensures
        r@ == head@ + name@ + tail@,
{
    let mut s: String = head.to_owned();
    s.append(name);
    s.append(tail);
    s
}

/// A run looks for its reveal where one was kept and not seen yet.
pub open spec fn to_observe(m: RegisterModel) -> bool {
    m.reveal_tx is Some && m.revealed_at is None
}

/// A registration after a look for its reveal.
pub open spec fn with_look(m: RegisterModel, look: Option<u64>) -> RegisterModel {
    match look {
        Some(at) => RegisterModel { revealed_at: Some(at), ..m },
        None => m,
    }
}

/// The op is a registration's reveal.
pub open spec fn reveals(op: NameOp, m: RegisterModel) -> bool {
    op matches NameOp::Reveal { record, salt } && record.kind == m.kind && record.name@
        == m.record_name && record.address@ == m.address && salt@ == m.salt
}

/// What a run does for a registration that was looked for, where that is to be
/// done: the registration after the run, and the move.
pub open spec fn moved(
    m: RegisterModel,
    look: Option<u64>,
    after: RegisterModel,
    mv: RegisterMove,
    scan_to: u64,
    no_submit: bool,
    commit: [u8; 32],
    fee: u64,
    rules: NameRules,
) -> bool {
    let seen = with_look(m, look);
    let saved = |n: RegisterModel| mv.save matches Some(t) && t@ == register_text(n);
    let unsaved = if look is Some {
        saved(seen)
    } else {
        mv.save is None
    };
    match step_at(seen.committed_at, seen.revealed_at, scan_to, rules) {
        RegisterStep::NeedsCommit => {
            &&& after == (RegisterModel { commit_attempted: true, ..seen })
            &&& saved(after)
            &&& mv.action matches RegisterAction::Commit { op, label, done } && op == (
            NameOp::Commit { commit }) && label@ == "commit for "@ + m.name + " (relay fee only)"@
                && done@ == committed_text(m.name)
        },
        RegisterStep::WaitForWindow { at } => {
            &&& after == seen
            &&& unsaved
            &&& mv.action matches RegisterAction::Wait { why } && why@ == wait_text(at)
        },
        RegisterStep::RevealNow { closes } => {
            &&& after == seen
            &&& unsaved
            &&& match m.reveal_tx {
                Some(b) => mv.action matches RegisterAction::Repost { notice, wire, label, done }
                    && wire@ == b && notice@ == reposting_text(m.name, closes, fee) && label@
                    == "reveal for "@ + m.name && done@ == revealed_text(
                    m.name,
                    closes,
                    no_submit,
                ),
                None => mv.action matches RegisterAction::Reveal { notice, op, label, done }
                    && reveals(op, m) && notice@ == revealing_text(m.name, closes, fee) && label@
                    == "reveal for "@ + m.name && done@ == revealed_text(
                    m.name,
                    closes,
                    no_submit,
                ),
            }
        },
        RegisterStep::RevealConfirmed { at } => {
            &&& after == seen
            &&& unsaved
            &&& mv.action matches RegisterAction::Finish { done } && done@ == confirmed_text(
                m.name,
                at,
            )
        },
        RegisterStep::WindowClosed => {
            &&& after == seen
            &&& unsaved
            &&& mv.action matches RegisterAction::Close { why } && why@ == CLOSED_TEXT@
        },
    }
}

/// The next move of a registration. `look` is what a look for the reveal found,
/// none where it was not looked for yet; `commit` is the chain's hash of the
/// record and the salt, and `fee` the name's fee.
pub fn names_register(
    state: &mut RegisterState,
    look: Option<Option<u64>>,
    scan_to: u64,
    no_submit: bool,
    commit: [u8; 32],
    fee: u64,
    rules: &NameRules,
) -> (r: RegisterMove)
    requires
        old(state).committed_at matches Some(h) ==> window_fits(h, *rules),
    ensures
        if to_observe(old(state)@) && look is None {
            *final(state) == *old(state) && r.save is None && r.action is Observe
        } else {
            let found = match look {
                Some(l) => if to_observe(old(state)@) {
                    l
                } else {
                    None
                },
                None => None,
            };
            moved(
                old(state)@,
                found,
                final(state)@,
                r,
                scan_to,
                no_submit,
                commit,
                fee,
                *rules,
            )
        },
{
    let ghost m = state@;
    let mut save: Option<String> = None;
    if state.reveal_tx.is_some() && state.revealed_at.is_none() {
        match look {
            None => {
                return RegisterMove { save: None, action: RegisterAction::Observe };
            },
            Some(None) => {},
            Some(Some(at)) => {
                state.revealed_at = Some(at);
                save = Some(state.save());
            },
        }
    }
    match state.step(scan_to, rules) {
        RegisterStep::NeedsCommit => {
            state.commit_attempted = true;
            let name = state.name.as_str();
            RegisterMove {
                save: Some(state.save()),
                action: RegisterAction::Commit {
                    op: state.commit_op(commit),
                    label: label_line("commit for ", name, " (relay fee only)"),
                    done: committed_line(name),
                },
            }
        },
        RegisterStep::WaitForWindow { at } => RegisterMove {
            save,
            action: RegisterAction::Wait { why: wait_line(at) },
        },
        RegisterStep::RevealNow { closes } => {
            let name = state.name.as_str();
            let mut label: String = "reveal for ".to_owned();
            label.append(name);
            let done = revealed_line(name, closes, no_submit);
            match &state.reveal_tx {
                Some(b) => RegisterMove {
                    save,
                    action: RegisterAction::Repost {
                        notice: reposting_line(name, closes, fee),
                        wire: copied(b),
                        label,
                        done,
                    },
                },
                None => RegisterMove {
                    save,
                    action: RegisterAction::Reveal {
                        notice: revealing_line(name, closes, fee),
                        op: state.reveal_op(),
                        label,
                        done,
                    },
                },
            }
        },
        RegisterStep::RevealConfirmed { at } => RegisterMove {
            save,
            action: RegisterAction::Finish { done: confirmed_line(state.name.as_str(), at) },
        },
        RegisterStep::WindowClosed => RegisterMove {
            save,
            action: RegisterAction::Close { why: CLOSED_TEXT.to_owned() },
        },
    }
}

/// Keeps a reveal that was built: what comes back is written before the reveal
/// is first sent.
pub fn preserve(state: &mut RegisterState, wire: &[u8]) -> (r: String)
    ensures
        final(state)@ == (RegisterModel { reveal_tx: Some(wire@), ..old(state)@ }),
        r@ == register_text(final(state)@),
{
    state.reveal_tx = Some(copied(wire));
    state.save()
}

/// What a node's answer to a transaction that was sent again comes to.
pub fn repost_outcome(answer: &SubmitAnswer) -> (r: Result<(), String>)
    ensures
        match class_of(answer.body@) {
            SubmitClass::Accepted | SubmitClass::Duplicate => r is Ok,
            _ => r matches Err(e) && e@ == answer.body@,
        },
{
    match answer.class() {
        SubmitClass::Accepted | SubmitClass::Duplicate => Ok(()),
        _ => Err(answer.body.as_str().to_owned()),
    }
}

/// Nothing is built or sent for a registration whose reveal was seen, and none
/// is built anew where one is kept: it is sent again byte for byte.
pub proof fn law_a_kept_reveal_is_never_rebuilt(
    m: RegisterModel,
    look: Option<u64>,
    after: RegisterModel,
    mv: RegisterMove,
    scan_to: u64,
    no_submit: bool,
    commit: [u8; 32],
    fee: u64,
    rules: NameRules,
)
    requires
        moved(m, look, after, mv, scan_to, no_submit, commit, fee, rules),
    ensures
        m.reveal_tx is Some ==> !(mv.action is Reveal),
        mv.action matches RegisterAction::Repost { wire, .. } ==> m.reveal_tx == Some(wire@),
        look is Some || m.revealed_at is Some ==> mv.action is Finish,
{
}

/// What a run does is told by what is known of the registration and by the
/// height. It commits exactly where there is no commit height, waits before the
/// window, sends the reveal in it and gives up past it; a reveal that was seen
/// ends it. It changes nothing of the registration but what was seen and that a
/// commit was attempted, and saves exactly where it changed something.
pub proof fn law_a_run_follows_the_window(
    m: RegisterModel,
    look: Option<u64>,
    after: RegisterModel,
    mv: RegisterMove,
    scan_to: u64,
    no_submit: bool,
    commit: [u8; 32],
    fee: u64,
    rules: NameRules,
)
    requires
        m.committed_at matches Some(h) ==> h + rules.commit_min_age <= u64::MAX && h
            + rules.commit_max_age <= u64::MAX,
        rules.commit_min_age <= rules.commit_max_age,
        moved(m, look, after, mv, scan_to, no_submit, commit, fee, rules),
    ensures
        ({
            let seen = look is Some || m.revealed_at is Some;
            let h = m.committed_at->0;
            let opens = h + rules.commit_min_age;
            let closes = h + rules.commit_max_age;
            &&& mv.action is Finish <==> seen
            &&& mv.action is Commit <==> !seen && m.committed_at is None
            &&& mv.action is Wait <==> !seen && m.committed_at is Some && scan_to < opens
            &&& mv.action is Reveal <==> !seen && m.committed_at is Some && opens <= scan_to
                <= closes && m.reveal_tx is None
            &&& mv.action is Repost <==> !seen && m.committed_at is Some && opens <= scan_to
                <= closes && m.reveal_tx is Some
            &&& mv.action is Close <==> !seen && m.committed_at is Some && scan_to > closes
        }),
        mv.action matches RegisterAction::Commit { op, .. } ==> op == (NameOp::Commit { commit }),
        mv.action matches RegisterAction::Reveal { op, .. } ==> (op matches NameOp::Reveal {
            record,
            salt,
        } && record.kind == m.kind && record.name@ == m.record_name && record.address@ == m.address
            && salt@ == m.salt),
        after.name == m.name && after.kind == m.kind && after.record_name == m.record_name,
        after.address == m.address && after.salt == m.salt,
        after.committed_at == m.committed_at && after.reveal_tx == m.reveal_tx,
        after.revealed_at == (if look is Some {
            look
        } else {
            m.revealed_at
        }),
        after.commit_attempted == (m.commit_attempted || mv.action is Commit),
        mv.save is Some <==> look is Some || mv.action is Commit,
        mv.save matches Some(t) ==> t@ == register_text(after),
{
}

/// A commit goes out only behind a saved state that says that it was attempted,
/// and what is saved reads back as the registration after the run.
pub proof fn law_a_commit_is_saved_before_it_is_sent(
    m: RegisterModel,
    look: Option<u64>,
    after: RegisterModel,
    mv: RegisterMove,
    scan_to: u64,
    no_submit: bool,
    commit: [u8; 32],
    fee: u64,
    rules: NameRules,
)
    requires
        sound(m, rules),
        moved(m, look, after, mv, scan_to, no_submit, commit, fee, rules),
        mv.action is Commit,
    ensures
        after.commit_attempted,
        mv.save matches Some(t) && register_of(t@, rules) == Ok::<
            Option<RegisterModel>,
            Seq<char>,
        >(Some(after)),
{
    law_registration_reads_back(after, rules);
}

/// A reveal that was built, kept and not seen on chain is sent again as it was
/// by a later run inside the window: what the first run kept reads back with its
/// bytes, and the later run sends them.
pub proof fn law_an_unseen_reveal_is_sent_again(
    m: RegisterModel,
    after: RegisterModel,
    mv: RegisterMove,
    wire: Seq<u8>,
    again: RegisterModel,
    mv2: RegisterMove,
    scan_to: u64,
    later: u64,
    no_submit: bool,
    commit: [u8; 32],
    fee: u64,
    rules: NameRules,
)
    requires
        sound(m, rules),
        m.commit_attempted,
        wire.len() > 0,
        moved(m, None, after, mv, scan_to, no_submit, commit, fee, rules),
        mv.action is Reveal,
        moved(
            RegisterModel { reveal_tx: Some(wire), ..after },
            None,
            again,
            mv2,
            later,
            no_submit,
            commit,
            fee,
            rules,
        ),
        scan_to <= later,
        !(mv2.action is Close),
    ensures
        register_of(register_text(RegisterModel { reveal_tx: Some(wire), ..after }), rules) == Ok::<
            Option<RegisterModel>,
            Seq<char>,
        >(Some(RegisterModel { reveal_tx: Some(wire), ..after })),
        mv2.action matches RegisterAction::Repost { wire: w, .. } && w@ == wire,
        again.salt == m.salt && again.address == m.address && again.name == m.name,
{
    law_registration_reads_back(RegisterModel { reveal_tx: Some(wire), ..after }, rules);
}

} // verus!
