//! The spend flow: select, prove, submit.
//!
//! The local record of a send is written before the transaction goes out: the
//! chain carries every other fact of it and can never carry the recipient, and a
//! submission whose answer never arrives is where that is needed most. A
//! submission that did not complete is no refusal: the transaction may have
//! landed, and its bytes come back with the error so that they can be sent again.
use crate::bundle::{BundleFacts, WitnessBundle};
use crate::bytes32::{contains32, copied};
#[allow(unused_imports)]
use crate::bytes32::holds32;
use crate::driver::ScanVerdict;
use crate::net::{SubmitAnswer, SubmitClass};
#[allow(unused_imports)]
use crate::net::{class_of, echoed_id};
#[allow(unused_imports)]
use crate::paging::contains_range;
use crate::sends::{hex32, SendRecord};
use crate::spent::{fetch_spent, NullifierSource, SpentRefusal, SpentSet};
#[allow(unused_imports)]
use crate::spent::spent_read;
use crate::sync::{AnchorSource, Anchors};
use crate::text::{push_dec, str_eq};
#[allow(unused_imports)]
use crate::text::{dec, hex_text, words_of};
use crate::wire::digest_bytes;
#[allow(unused_imports)]
use crate::wire::lane_bytes;
use vstd::prelude::*;

verus! {

/// One thing that happened in a spend, as it happened.
#[derive(Debug, Clone, PartialEq, Eq)]
pub enum SendStep {
    /// The recipient, resolved; with the contact's name if there was one.
    Resolved { recipient_short: String, contact: Option<String> },
    /// Mined coins could not be seen: the selection ran on transaction notes
    /// only.
    CoinbaseUnavailable { why: String },
    /// The inputs are chosen from `spendable` notes, of which `mined` are
    /// matured coinbase; `skipped_spent` notes were already spent.
    Selected { spendable: usize, skipped_spent: usize, mined: usize },
    /// The tree caught up and an anchor was chosen.
    Tree {
        held: u64,
        fetched: u64,
        anchor_count: u64,
        anchor_root: String,
        node_tip: u64,
        finalized: Option<u64>,
        anchor_behind: u64,
    },
    /// A proof is about to start: seconds and gigabytes.
    Proving,
    /// The proof was made.
    Built { amount: u64, fee: u64, change: u64, used_dummy: bool },
    /// The local record was written.
    Recorded,
    /// Something that must be seen and must not stop the spend.
    Warning(String),
    Submitting,
    /// The node's answer, verbatim.
    Answered { status: u16, body: String },
}

/// Why a spend stopped.
#[derive(Debug, PartialEq, Eq)]
#[allow(inconsistent_fields)]
pub enum SendError {
    /// Refused before anything went out.
    Refused(String),
    /// The proof was made and the submission did not complete: the transaction
    /// may have landed.
    Incomplete { why: String, wire_bytes: Vec<u8> },
    /// The node answered, and the answer was no acceptance.
    Answered { class: SubmitClass, status: u16, body: String, wire_bytes: Vec<u8> },
}

impl SendError {
    /// The sentence that a person is shown.
    pub open spec fn text(&self) -> Seq<char> {
        match self {
            SendError::Refused(why) => why@,
            SendError::Incomplete { why, .. } => why@,
            SendError::Answered { body, .. } => body@,
        }
    }

    /// The sentence that a person is shown.
    pub fn message(&self) -> (r: String)
        ensures
            r@ == self.text(),
    {
        match self {
            SendError::Refused(why) => why.as_str().to_owned(),
            SendError::Incomplete { why, .. } => why.as_str().to_owned(),
            SendError::Answered { body, .. } => body.as_str().to_owned(),
        }
    }
}

/// Whether a refusal says exactly these words.
pub open spec fn refuses(r: SendError, why: Seq<char>) -> bool {
    r matches SendError::Refused(w) && w@ == why
}

/// What a scan of an address that may not be built upon is refused with.
pub open spec fn scan_fault(index: u64, outcome: Result<ScanVerdict, String>) -> Option<Seq<char>> {
    match outcome {
        Err(e) => Some("scan never started for index "@ + dec(index as nat) + ": "@ + e@),
        Ok(ScanVerdict::Partial(shown)) => Some(
            "index "@ + dec(index as nat) + " scanned "@ + shown@
                + " — refusing to build a spend on partial knowledge (a double-claimed nullifier could be among the unread outputs)"@,
        ),
        Ok(_) => None,
    }
}

/// Admits the scan of one address, or refuses to build a spend on it.
pub fn admit_scan(index: u64, outcome: &Result<ScanVerdict, String>) -> (r: Result<(), SendError>)
    ensures
        match scan_fault(index, *outcome) {
            None => r is Ok,
            Some(why) => r matches Err(e) && refuses(e, why),
        },
        r is Ok <==> (outcome matches Ok(v) && (v is Complete || v is Shadowed)),
{
    match outcome {
        Err(e) => {
            let mut s: String = "scan never started for index ".to_owned();
            push_dec(&mut s, index);
            s.append(": ");
            s.append(e.as_str());
            Err(SendError::Refused(s))
        },
        Ok(ScanVerdict::Partial(shown)) => {
            let mut s: String = "index ".to_owned();
            push_dec(&mut s, index);
            s.append(" scanned ");
            s.append(shown.as_str());
            s.append(
                " — refusing to build a spend on partial knowledge (a double-claimed nullifier could be among the unread outputs)",
            );
            Err(SendError::Refused(s))
        },
        Ok(_) => Ok(()),
    }
}

/// Fresh facts of the chain that a proof is checked against.
#[derive(Clone, Debug)]
pub struct ProveContext {
    pub anchors: Anchors,
    pub spent: SpentSet,
}

fn said_between(head: &str, why: &str, tail: &str) -> (r: String)
    ensures
        r@ == head@ + why@ + tail@,
{
    let mut s: String = head.to_owned();
    s.append(why);
    s.append(tail);
    s
}

/// The end of every refusal of a proof whose inputs may be spent.
pub const MAY_BE_CONSUMED: &'static str = " — refusing to prove inputs the chain may already have consumed";

/// The facts that anchors and a read of the nullifiers come to, or the refusal
/// for a read that failed.
pub open spec fn is_context(
    anchors: Anchors,
    spent: Result<SpentSet, SpentRefusal>,
    r: Result<ProveContext, SendError>,
) -> bool {
    match spent {
        Ok(set) => r == Ok::<ProveContext, SendError>(ProveContext { anchors, spent: set }),
        Err(e) => r matches Err(why) && refuses(
            why,
            "nullifier-preflight-unavailable: "@ + e.text() + MAY_BE_CONSUMED@,
        ),
    }
}

/// What a preflight comes to behind the node's answer: the refusal for anchors
/// that were not had, and otherwise what a read of the nullifiers from the start
/// to the tip of those anchors makes of them.
pub open spec fn preflighted<N: NullifierSource>(
    answer: Result<Anchors, String>,
    scan: &N,
    r: Result<ProveContext, SendError>,
) -> bool {
    match answer {
        Err(e) => r matches Err(why) && refuses(why, "anchor-preflight-unavailable: "@ + e@),
        Ok(anchors) => exists|spent: Result<SpentSet, SpentRefusal>| #[trigger]
            spent_read(scan, 0, anchors.tip_height, spent) && is_context(anchors, spent, r),
    }
}

/// Reads the facts that a proof is checked against: the node's anchors, and the
/// nullifiers up to its tip. What the two sources answer is theirs to say; a
/// source that does not answer is a refusal under its own name.
pub fn preflight_urls<A: AnchorSource, N: NullifierSource>(node: &A, scan: &N) -> (r: Result<
    ProveContext,
    SendError,
>)
    ensures
        exists|answer: Result<Anchors, String>| #[trigger]
            call_ensures(A::anchors, (node,), answer) && preflighted(answer, scan, r),
        r matches Ok(c) ==> c.spent.wf() && (c.spent.covered matches Some((a, b)) ==> a <= b
            <= c.anchors.tip_height),
        r matches Err(e) ==> e is Refused,
{
    let answer = node.anchors();
    let ghost given = answer;
    assert(call_ensures(A::anchors, (node,), given));
    match answer {
        Err(e) => {
            let why = said_between("anchor-preflight-unavailable: ", e.as_str(), "");
            proof {
                reveal_strlit("");
                assert(why@ =~= "anchor-preflight-unavailable: "@ + e@);
            }
            let r = Err(SendError::Refused(why));
            assert(preflighted(given, scan, r));
            r
        },
        Ok(anchors) => {
            let tip: u64 = anchors.tip_height;
            let spent = fetch_spent(scan, 0, tip);
            let ghost read = spent;
            let r = with_spent(anchors, spent);
            assert(spent_read(scan, 0, tip, read) && is_context(anchors, read, r));
            assert(preflighted(given, scan, r));
            r
        },
    }
}

/// The facts that anchors and a read of the nullifiers come to.
pub fn with_spent(anchors: Anchors, spent: Result<SpentSet, SpentRefusal>) -> (r: Result<
    ProveContext,
    SendError,
>)
    ensures
        is_context(anchors, spent, r),
{
    match spent {
        Ok(set) => Ok(ProveContext { anchors, spent: set }),
        Err(e) => Err(
            SendError::Refused(
                said_between(
                    "nullifier-preflight-unavailable: ",
                    e.message().as_str(),
                    MAY_BE_CONSUMED,
                ),
            ),
        ),
    }
}

/// The heights in which an input could have been spent by now.
pub open spec fn exposed(b: WitnessBundle, c: ProveContext) -> (u64, u64) {
    let outputs = b.output_range->0;
    (
        outputs.0,
        if c.anchors.tip_height > outputs.1 {
            c.anchors.tip_height
        } else {
            outputs.1
        },
    )
}

/// What is said of an anchor that the node no longer takes.
pub open spec fn stale_text(b: WitnessBundle, c: ProveContext) -> Seq<char> {
    "anchor-no-longer-accepted: bundle anchor "@ + hex_text(lane_bytes(b.anchor@))
        + " selected at tip "@ + dec(b.anchor_tip_height as nat)
        + " is absent from the node's current valid-anchor set at tip "@ + dec(
        c.anchors.tip_height as nat,
    )
}

/// What is said of heights that were not read.
pub open spec fn exposed_text(b: WitnessBundle, c: ProveContext) -> Seq<char> {
    "nullifier-preflight-not-covered: "@ + (SpentRefusal::NotCovered {
        covered: c.spent.covered,
        outputs: exposed(b, c),
    }).text() + MAY_BE_CONSUMED@
}

/// What is said of an input that was spent meanwhile.
pub open spec fn consumed_text(nf: Seq<u8>) -> Seq<char> {
    "bundle-input-already-spent: selected nullifier "@ + hex_text(nf)
        + " is now on chain; refusing before proof"@
}

/// The first of the real inputs' nullifiers, from the `i`-th on, that is on
/// chain.
pub open spec fn consumed_from(nfs: Seq<[u8; 32]>, spent: SpentSet, i: int) -> Option<Seq<u8>>
    decreases nfs.len() - i,
{
    if 0 <= i < nfs.len() {
        if spent.height(nfs[i]@) is Some {
            Some(nfs[i]@)
        } else {
            consumed_from(nfs, spent, i + 1)
        }
    } else {
        None
    }
}

/// Why a bundle is not proved, behind its own validity: its anchor is no longer
/// taken, the heights were not read, or an input is spent.
pub open spec fn prove_fault(
    b: WitnessBundle,
    c: ProveContext,
    nullifiers: Seq<[u8; 32]>,
) -> Option<Seq<char>> {
    if !holds32(c.anchors.roots@, lane_bytes(b.anchor@)) {
        Some(stale_text(b, c))
    } else if !contains_range(c.spent.covered, exposed(b, c)) {
        Some(exposed_text(b, c))
    } else {
        match consumed_from(nullifiers.take(b.real_inputs as int), c.spent, 0) {
            Some(nf) => Some(consumed_text(nf)),
            None => None,
        }
    }
}

proof fn lemma_consumed(nfs: Seq<[u8; 32]>, spent: SpentSet, i: int)
    requires
        0 <= i <= nfs.len(),
    ensures
        consumed_from(nfs, spent, i) is None <==> forall|k: int|
            i <= k < nfs.len() ==> spent.height((#[trigger] nfs[k])@) is None,
        consumed_from(nfs, spent, i) matches Some(nf) ==> exists|k: int|
            i <= k < nfs.len() && (#[trigger] nfs[k])@ == nf && spent.height(nf) is Some,
    decreases nfs.len() - i,
{
    if i < nfs.len() {
        lemma_consumed(nfs, spent, i + 1);
    }
}

/// Nothing stands against proving a valid bundle exactly where the node still
/// serves its anchor, the nullifiers were read over its outputs' heights and up
/// to the tip, and no real input's nullifier is on chain; and what is said of a
/// spent input names one that is.
pub proof fn law_only_unspent_inputs_are_proved(
    b: WitnessBundle,
    facts: BundleFacts,
    c: ProveContext,
    nullifiers: Seq<[u8; 32]>,
)
    requires
        nullifiers.len() == 2,
    ensures
        b.valid(facts) ==> (prove_fault(b, c, nullifiers) is None <==> {
            &&& exists|i: int|
                0 <= i < c.anchors.roots@.len() && (#[trigger] c.anchors.roots@[i])@ == lane_bytes(
                    b.anchor@,
                )
            &&& c.spent.covered matches Some((from, to)) && from <= (b.output_range->0).0 && to >= (
            b.output_range->0).1 && to >= c.anchors.tip_height
            &&& forall|i: int|
                0 <= i < b.real_inputs ==> c.spent.height((#[trigger] nullifiers[i])@) is None
        }),
        b.valid(facts) && holds32(c.anchors.roots@, lane_bytes(b.anchor@)) && contains_range(
            c.spent.covered,
            exposed(b, c),
        ) && prove_fault(b, c, nullifiers) is Some ==> exists|i: int|
            0 <= i < b.real_inputs && c.spent.height((#[trigger] nullifiers[i])@) is Some
                && prove_fault(b, c, nullifiers) == Some(consumed_text(nullifiers[i]@)),
{
    if b.valid(facts) {
        let n = b.real_inputs as int;
        let nfs = nullifiers.take(n);
        lemma_consumed(nfs, c.spent, 0);
        assert forall|i: int| 0 <= i < n implies #[trigger] nullifiers[i] == nfs[i] by {}
        if let Some(nf) = consumed_from(nfs, c.spent, 0) {
            let k = choose|k: int|
                0 <= k < nfs.len() && (#[trigger] nfs[k])@ == nf && c.spent.height(nf) is Some;
            assert(nullifiers[k]@ == nf);
        }
    }
}

fn stale(b: &WitnessBundle, c: &ProveContext) -> (r: String)
    ensures
        r@ == stale_text(*b, *c),
{
    let mut s: String = "anchor-no-longer-accepted: bundle anchor ".to_owned();
    s.append(hex32(&b.anchor()).as_str());
    s.append(" selected at tip ");
    push_dec(&mut s, b.selected_at_tip());
    s.append(" is absent from the node's current valid-anchor set at tip ");
    push_dec(&mut s, c.anchors.tip_height);
    s
}

/// Whether the proof of a bundle may be started: it is valid on the facts, its
/// anchor is among the node's, the nullifiers were read up to the tip, and none
/// of its real inputs' `nullifiers` is on chain. The proof itself comes behind
/// this.
pub fn prove(
    bundle: &WitnessBundle,
    facts: &BundleFacts,
    current: &ProveContext,
    nullifiers: &[[u8; 32]; 2],
) -> (r: Result<SendStep, SendError>)
    ensures
        if !bundle.valid(*facts) {
            exists|e: crate::bundle::BundleError|
                #[trigger] bundle.refused_as(*facts, e) && (r matches Err(w) && refuses(
                    w,
                    e.text(),
                ))
        } else {
            match prove_fault(*bundle, *current, nullifiers@) {
                Some(why) => r matches Err(e) && refuses(e, why),
                None => r == Ok::<SendStep, SendError>(SendStep::Proving),
            }
        },
        // A proof is started exactly where nothing stands against any of the
        // real inputs.
        r is Ok <==> {
            &&& bundle.valid(*facts)
            &&& exists|i: int|
                0 <= i < current.anchors.roots@.len() && (#[trigger] current.anchors.roots@[i])@
                    == lane_bytes(bundle.anchor@)
            &&& current.spent.covered matches Some((from, to)) && from <= (bundle.output_range->0).0
                && to >= (bundle.output_range->0).1 && to >= current.anchors.tip_height
            &&& forall|i: int|
                0 <= i < bundle.real_inputs ==> current.spent.height(
                    (#[trigger] nullifiers@[i])@,
                ) is None
        },
        r matches Ok(step) ==> step is Proving,
        r matches Err(e) ==> e is Refused,
{
    proof {
        law_only_unspent_inputs_are_proved(*bundle, *facts, *current, nullifiers@);
    }
    if let Err(e) = bundle.validate(facts) {
        let why = e.message();
        assert(bundle.refused_as(*facts, e));
        return Err(SendError::Refused(why));
    }
    if !contains32(&current.anchors.roots, &bundle.anchor()) {
        return Err(SendError::Refused(stale(bundle, current)));
    }
    let outputs = match bundle.output_range() {
        Some(o) => o,
        None => {
            return Err(
                SendError::Refused(
                    "witness-bundle-nullifier-coverage-missing: no scan output range was recorded".to_owned(),
                ),
            );
        },
    };
    let last: u64 = if current.anchors.tip_height > outputs.1 {
        current.anchors.tip_height
    } else {
        outputs.1
    };
    if let Err(e) = current.spent.covers_outputs(Some((outputs.0, last))) {
        return Err(
            SendError::Refused(
                said_between(
                    "nullifier-preflight-not-covered: ",
                    e.message().as_str(),
                    MAY_BE_CONSUMED,
                ),
            ),
        );
    }
    let nfs = bundle.real_nullifiers(nullifiers);
    let mut i: usize = 0;
    while i < nfs.len()
        invariant
            i <= nfs@.len(),
            nfs@ == nullifiers@.take(bundle.real_inputs as int),
            bundle.valid(*facts),
            holds32(current.anchors.roots@, lane_bytes(bundle.anchor@)),
            contains_range(current.spent.covered, exposed(*bundle, *current)),
            consumed_from(nfs@, current.spent, 0) == consumed_from(nfs@, current.spent, i as int),
        decreases nfs@.len() - i,
    {
        if current.spent.contains(&nfs[i]) {
            let mut s: String = "bundle-input-already-spent: selected nullifier ".to_owned();
            s.append(hex32(&nfs[i]).as_str());
            s.append(" is now on chain; refusing before proof");
            return Err(SendError::Refused(s));
        }
        i += 1;
    }
    Ok(SendStep::Proving)
}

/// The step that says that a bundle was proved.
pub fn built_step(bundle: &WitnessBundle) -> (r: SendStep)
    ensures
        r == (SendStep::Built {
            amount: bundle.amount,
            fee: bundle.fee,
            change: bundle.change_value,
            used_dummy: bundle.real_inputs == 1,
        }),
{
    SendStep::Built {
        amount: bundle.amount(),
        fee: bundle.fee(),
        change: bundle.change_value(),
        used_dummy: bundle.used_dummy(),
    }
}

/// What a transaction declares in the open.
#[derive(Clone, Debug, PartialEq, Eq)]
pub struct TxPublic {
    pub anchor: [u8; 32],
    pub nullifiers: Vec<[u8; 32]>,
    pub commitments: Vec<[u8; 32]>,
    pub fee: u64,
}

/// What a proved bundle declares, out of the nullifiers and commitments that the
/// proof's statement has; the commitments are those of the bundle's outputs.
pub fn prove_bundle(bundle: &WitnessBundle, nf: &[[u64; 4]; 2], cm: &[[u64; 4]; 2]) -> (r: TxPublic)
    ensures
        r.anchor@ == lane_bytes(bundle.anchor@),
        r.nullifiers@.len() == 2,
        r.nullifiers@[0]@ == lane_bytes(nf@[0]@),
        r.nullifiers@[1]@ == lane_bytes(nf@[1]@),
        r.commitments@.len() == 2,
        r.commitments@[0]@ == lane_bytes(cm@[0]@),
        r.commitments@[1]@ == lane_bytes(cm@[1]@),
        r.fee == bundle.fee,
{
    let nullifiers: Vec<[u8; 32]> = vec![digest_bytes(&nf[0]), digest_bytes(&nf[1])];
    let commitments: Vec<[u8; 32]> = vec![digest_bytes(&cm[0]), digest_bytes(&cm[1])];
    TxPublic { anchor: bundle.anchor(), nullifiers, commitments, fee: bundle.fee() }
}

/// What is said of a submission that did not complete.
pub open spec fn incomplete_text(why: Seq<char>) -> Seq<char> {
    "POST /v1/tx never completed ("@ + why
        + "). This is NOT a refusal — the transaction may have landed. Resubmit the SAME bytes: an already-pending transaction answers `duplicate`, which is safe."@
}

/// What a submission of `wire` came to: the node's answer, or that it did not
/// complete, with the bytes.
pub fn submit(wire: &[u8], answer: Result<SubmitAnswer, String>) -> (r: Result<
    SubmitAnswer,
    SendError,
>)
    ensures
        match answer {
            Ok(a) => r == Ok::<SubmitAnswer, SendError>(a),
            Err(why) => r matches Err(SendError::Incomplete { why: w, wire_bytes }) && w@
                == incomplete_text(why@) && wire_bytes@ == wire@,
        },
{
    match answer {
        Ok(a) => Ok(a),
        Err(why) => Err(
            SendError::Incomplete {
                why: said_between(
                    "POST /v1/tx never completed (",
                    why.as_str(),
                    "). This is NOT a refusal — the transaction may have landed. Resubmit the SAME bytes: an already-pending transaction answers `duplicate`, which is safe.",
                ),
                wire_bytes: copied(wire),
            },
        ),
    }
}

/// The local record of a send, out of what its transaction declares. `txid` is
/// the chain's id of the transaction.
pub fn declared_record(
    public: &TxPublic,
    txid: [u8; 32],
    submitted_at_tip: u64,
    amount: u64,
    recipient_short: String,
) -> (r: SendRecord)
    ensures
        r.txid == txid,
        r.submitted_at_tip == submitted_at_tip,
        r.amount == amount,
        r.fee == public.fee,
        r.recipient_short == recipient_short,
        r.nullifiers@ == public.nullifiers@,
{
    let mut nullifiers: Vec<[u8; 32]> = Vec::new();
    let mut i: usize = 0;
    while i < public.nullifiers.len()
        invariant
            i <= public.nullifiers@.len(),
            nullifiers@ == public.nullifiers@.take(i as int),
        decreases public.nullifiers@.len() - i,
    {
        nullifiers.push(public.nullifiers[i]);
        i += 1;
        assert(public.nullifiers@.take(i as int) =~= public.nullifiers@.take(i - 1).push(
            public.nullifiers@[i - 1],
        ));
    }
    assert(public.nullifiers@.take(i as int) =~= public.nullifiers@);
    SendRecord { txid, submitted_at_tip, amount, fee: public.fee, recipient_short, nullifiers }
}

/// A spend that got far enough to have bytes.
#[derive(Debug, PartialEq, Eq)]
pub struct SendOutcome {
    /// The transaction. Sending it again is safe.
    pub wire_bytes: Vec<u8>,
    /// The node's answer; none where nothing was submitted.
    pub answer: Option<SubmitAnswer>,
    pub fee: u64,
    pub change_value: u64,
    pub used_dummy: bool,
}

/// What a selection fixed of the record to be written.
#[derive(Clone, Debug, PartialEq, Eq)]
pub struct Chosen {
    pub tip: u64,
    pub amount: u64,
    pub recipient_short: String,
}

/// A proved transaction.
#[derive(Clone, Debug, PartialEq, Eq)]
pub struct SendArtifact {
    pub wire_bytes: Vec<u8>,
    pub public: TxPublic,
    /// The chain's id of the transaction.
    pub txid: [u8; 32],
    pub change_value: u64,
    pub used_dummy: bool,
}

/// How far a spend is.
#[derive(Clone, Copy, Debug, PartialEq, Eq)]
pub enum SendPhase {
    Selecting,
    Preflighting,
    Proving,
    Preserving,
    Recording,
    Submitting,
    Over,
}

/// What came of the phase that a spend was in.
#[derive(Debug)]
pub enum SendEvent {
    Selected(Result<Chosen, SendError>),
    Preflighted(Result<(), SendError>),
    Proved(Result<SendArtifact, SendError>),
    Preserved(Result<(), String>),
    Recorded(Result<(), String>),
    Answered(Result<SubmitAnswer, SendError>),
}

/// What a spend does next.
#[derive(Debug)]
pub enum SendAction {
    Preflight,
    Prove,
    /// Make these bytes durable.
    Preserve(Vec<u8>),
    /// Append this record to the local log.
    Record(SendRecord),
    /// Send these bytes.
    Submit(Vec<u8>),
    Finish(Result<SendOutcome, SendError>),
}

/// A spend on its way: select, preflight, prove, preserve, record, submit.
#[derive(Debug)]
pub struct SendRun {
    pub no_submit: bool,
    pub phase: SendPhase,
    pub chosen: Option<Chosen>,
    pub art: Option<SendArtifact>,
}

/// What is said where the bytes of a transaction could not be made durable.
pub open spec fn unsaved_text(why: Seq<char>) -> Seq<char> {
    "transaction was built but NOT submitted because its exact retry bytes could not be saved: "@
        + why
}

/// What is said where the local record could not be written.
pub open spec fn unrecorded_text(why: Seq<char>) -> Seq<char> {
    "could not write the local send record ("@ + why
        + "). The transaction is unaffected, but `history` will show this send with `recipient: not recorded`."@
}

/// What is said where the node names another transaction than this wallet.
pub open spec fn disagree_text(ours: Seq<char>, theirs: Seq<char>) -> Seq<char> {
    "this wallet derived statement id "@ + ours + " and the node answered "@ + theirs
        + ". The ledger is unaffected (it joins on nullifiers), but the disagreement is real."@
}

/// The outcome of a spend with its artifact and an answer.
pub open spec fn is_outcome(o: SendOutcome, art: SendArtifact, answer: Option<SubmitAnswer>) -> bool {
    &&& o.wire_bytes@ == art.wire_bytes@
    &&& o.answer == answer
    &&& o.fee == art.public.fee
    &&& o.change_value == art.change_value
    &&& o.used_dummy == art.used_dummy
}

/// The record of a spend.
pub open spec fn is_record(r: SendRecord, chosen: Chosen, art: SendArtifact) -> bool {
    &&& r.txid == art.txid
    &&& r.submitted_at_tip == chosen.tip
    &&& r.amount == chosen.amount
    &&& r.fee == art.public.fee
    &&& r.recipient_short@ == chosen.recipient_short@
    &&& r.nullifiers@ == art.public.nullifiers@
}

/// A spend in a phase holds what the phases before it brought.
pub open spec fn run_wf(run: SendRun) -> bool {
    match run.phase {
        SendPhase::Selecting => true,
        SendPhase::Preflighting | SendPhase::Proving => run.chosen is Some,
        SendPhase::Preserving | SendPhase::Recording | SendPhase::Submitting => run.chosen is Some
            && run.art is Some,
        SendPhase::Over => true,
    }
}

/// The event is the outcome of the phase that the spend is in.
pub open spec fn in_phase(phase: SendPhase, e: SendEvent) -> bool {
    match e {
        SendEvent::Selected(_) => phase == SendPhase::Selecting,
        SendEvent::Preflighted(_) => phase == SendPhase::Preflighting,
        SendEvent::Proved(_) => phase == SendPhase::Proving,
        SendEvent::Preserved(_) => phase == SendPhase::Preserving,
        SendEvent::Recorded(_) => phase == SendPhase::Recording,
        SendEvent::Answered(_) => phase == SendPhase::Submitting,
    }
}

/// The steps that an answer leads to: the node's words, and a warning where it
/// names another transaction.
pub open spec fn answer_steps(answer: SubmitAnswer, txid: Seq<u8>, steps: Seq<SendStep>) -> bool {
    let ours = hex_text(txid);
    match echoed_id(answer.body@) {
        Some(theirs) => if theirs == ours {
            steps.len() == 1 && is_answered(steps[0], answer)
        } else {
            steps.len() == 2 && is_answered(steps[0], answer) && (steps[1] matches SendStep::Warning(
                w,
            ) && w@ == disagree_text(ours, theirs))
        },
        None => steps.len() == 1 && is_answered(steps[0], answer),
    }
}

pub open spec fn is_answered(s: SendStep, answer: SubmitAnswer) -> bool {
    s matches SendStep::Answered { status, body } && status == answer.status && body@
        == answer.body@
}

/// What an event leads to: the spend after it, the steps that are shown and what
/// is done next.
pub open spec fn advanced(
    was: SendRun,
    now: SendRun,
    e: SendEvent,
    steps: Seq<SendStep>,
    next: SendAction,
) -> bool {
    let stop = |why: SendError| next == SendAction::Finish(Err(why)) && now.phase == SendPhase::Over
        && steps.len() == 0;
    &&& now.no_submit == was.no_submit
    &&& match e {
        SendEvent::Selected(Err(why)) => stop(why),
        SendEvent::Selected(Ok(c)) => next is Preflight && now.phase == SendPhase::Preflighting
            && now.chosen == Some(c) && steps.len() == 0,
        SendEvent::Preflighted(Err(why)) => stop(why),
        SendEvent::Preflighted(Ok(_)) => next is Prove && now.phase == SendPhase::Proving
            && now.chosen == was.chosen && steps.len() == 0,
        SendEvent::Proved(Err(why)) => stop(why),
        SendEvent::Proved(Ok(art)) => {
            &&& next matches SendAction::Preserve(wire) && wire@ == art.wire_bytes@
            &&& now.phase == SendPhase::Preserving && now.chosen == was.chosen
            &&& now.art == Some(art) && steps.len() == 0
        },
        SendEvent::Preserved(Err(why)) => {
            &&& next matches SendAction::Finish(Err(err)) && refuses(err, unsaved_text(why@))
            &&& now.phase == SendPhase::Over && steps.len() == 0
        },
        SendEvent::Preserved(Ok(_)) => if was.no_submit {
            &&& next matches SendAction::Finish(Ok(o)) && is_outcome(o, was.art->0, None)
            &&& now.phase == SendPhase::Over && steps.len() == 0
        } else {
            &&& next matches SendAction::Record(rec) && is_record(rec, was.chosen->0, was.art->0)
            &&& now.phase == SendPhase::Recording && now.chosen == was.chosen && now.art == was.art
            &&& steps.len() == 0
        },
        SendEvent::Recorded(done) => {
            &&& next matches SendAction::Submit(wire) && wire@ == (was.art->0).wire_bytes@
            &&& now.phase == SendPhase::Submitting && now.chosen == was.chosen && now.art == was.art
            &&& steps.len() == 2 && steps[1] == SendStep::Submitting
            &&& match done {
                Ok(_) => steps[0] == SendStep::Recorded,
                Err(why) => steps[0] matches SendStep::Warning(w) && w@ == unrecorded_text(why@),
            }
        },
        SendEvent::Answered(Err(why)) => stop(why),
        SendEvent::Answered(Ok(answer)) => {
            &&& answer_steps(answer, (was.art->0).txid@, steps)
            &&& now.phase == SendPhase::Over
            &&& match class_of(answer.body@) {
                SubmitClass::Accepted | SubmitClass::Duplicate => next matches SendAction::Finish(
                    Ok(o),
                ) && is_outcome(o, was.art->0, Some(answer)),
                class => next matches SendAction::Finish(
                    Err(SendError::Answered { class: c, status, body, wire_bytes }),
                ) && c == class && status == answer.status && body == answer.body && wire_bytes@
                    == (was.art->0).wire_bytes@,
            }
        },
    }
}

fn steps_of(answer: &SubmitAnswer, txid: &[u8; 32]) -> (r: Vec<SendStep>)
    ensures
        answer_steps(*answer, txid@, r@),
{
    let mut steps: Vec<SendStep> = Vec::new();
    steps.push(
        SendStep::Answered { status: answer.status, body: answer.body.as_str().to_owned() },
    );
    if let Some(theirs) = answer.txid_hex() {
        let ours = hex32(txid);
        if !str_eq(theirs.as_str(), ours.as_str()) {
            let mut w: String = "this wallet derived statement id ".to_owned();
            w.append(ours.as_str());
            w.append(" and the node answered ");
            w.append(theirs.as_str());
            w.append(
                ". The ledger is unaffected (it joins on nullifiers), but the disagreement is real.",
            );
            steps.push(SendStep::Warning(w));
        }
    }
    steps
}

fn outcome_of(art: &SendArtifact, answer: Option<SubmitAnswer>) -> (r: SendOutcome)
    ensures
        is_outcome(r, *art, answer),
{
    SendOutcome {
        wire_bytes: copied(&art.wire_bytes),
        answer,
        fee: art.public.fee,
        change_value: art.change_value,
        used_dummy: art.used_dummy,
    }
}

impl SendRun {
    /// A spend whose selection is on its way.
    pub fn new(no_submit: bool) -> (r: SendRun)
        ensures
            r.no_submit == no_submit,
            r.phase == SendPhase::Selecting,
            run_wf(r),
    {
        SendRun { no_submit, phase: SendPhase::Selecting, chosen: None, art: None }
    }

    /// Takes what came of the phase that the spend is in, and says what is shown
    /// and what is done next.
    pub fn execute(&mut self, e: SendEvent) -> (r: (Vec<SendStep>, SendAction))
        requires
            run_wf(*old(self)),
            in_phase(old(self).phase, e),
        ensures
            run_wf(*final(self)),
            advanced(*old(self), *final(self), e, r.0@, r.1),
    {
        let mut steps: Vec<SendStep> = Vec::new();
        match e {
            SendEvent::Selected(Err(why)) => {
                self.phase = SendPhase::Over;
                (steps, SendAction::Finish(Err(why)))
            },
            SendEvent::Selected(Ok(c)) => {
                self.phase = SendPhase::Preflighting;
                self.chosen = Some(c);
                (steps, SendAction::Preflight)
            },
            SendEvent::Preflighted(Err(why)) => {
                self.phase = SendPhase::Over;
                (steps, SendAction::Finish(Err(why)))
            },
            SendEvent::Preflighted(Ok(_)) => {
                self.phase = SendPhase::Proving;
                (steps, SendAction::Prove)
            },
            SendEvent::Proved(Err(why)) => {
                self.phase = SendPhase::Over;
                (steps, SendAction::Finish(Err(why)))
            },
            SendEvent::Proved(Ok(art)) => {
                let wire = copied(&art.wire_bytes);
                self.phase = SendPhase::Preserving;
                self.art = Some(art);
                (steps, SendAction::Preserve(wire))
            },
            SendEvent::Preserved(Err(why)) => {
                self.phase = SendPhase::Over;
                let mut s: String =
                    "transaction was built but NOT submitted because its exact retry bytes could not be saved: ".to_owned();
                s.append(why.as_str());
                (steps, SendAction::Finish(Err(SendError::Refused(s))))
            },
            SendEvent::Preserved(Ok(_)) => match (&self.chosen, &self.art) {
                (Some(c), Some(art)) => {
                    if self.no_submit {
                        let o = outcome_of(art, None);
                        self.phase = SendPhase::Over;
                        (steps, SendAction::Finish(Ok(o)))
                    } else {
                        let rec = declared_record(
                            &art.public,
                            art.txid,
                            c.tip,
                            c.amount,
                            c.recipient_short.as_str().to_owned(),
                        );
                        self.phase = SendPhase::Recording;
                        (steps, SendAction::Record(rec))
                    }
                },
                _ => (steps, SendAction::Preflight),
            },
            SendEvent::Recorded(done) => {
                match done {
                    Ok(_) => steps.push(SendStep::Recorded),
                    Err(why) => {
                        let w = said_between(
                            "could not write the local send record (",
                            why.as_str(),
                            "). The transaction is unaffected, but `history` will show this send with `recipient: not recorded`.",
                        );
                        steps.push(SendStep::Warning(w));
                    },
                }
                steps.push(SendStep::Submitting);
                match &self.art {
                    Some(art) => {
                        let wire = copied(&art.wire_bytes);
                        self.phase = SendPhase::Submitting;
                        (steps, SendAction::Submit(wire))
                    },
                    None => (steps, SendAction::Preflight),
                }
            },
            SendEvent::Answered(Err(why)) => {
                self.phase = SendPhase::Over;
                (steps, SendAction::Finish(Err(why)))
            },
            SendEvent::Answered(Ok(answer)) => match &self.art {
                Some(art) => {
                    let shown = steps_of(&answer, &art.txid);
                    let class = answer.class();
                    let next = match class {
                        SubmitClass::Accepted | SubmitClass::Duplicate => SendAction::Finish(
                            Ok(outcome_of(art, Some(answer))),
                        ),
                        _ => SendAction::Finish(
                            Err(
                                SendError::Answered {
                                    class,
                                    status: answer.status,
                                    body: answer.body,
                                    wire_bytes: copied(&art.wire_bytes),
                                },
                            ),
                        ),
                    };
                    self.phase = SendPhase::Over;
                    (shown, next)
                },
                None => (steps, SendAction::Preflight),
            },
        }
    }
}

/// Nothing is submitted before the local record was tried, what is submitted are
/// the bytes that the proof gave, and a spend that is not to be submitted never
/// is, nor recorded.
pub proof fn law_a_send_is_recorded_before_it_is_submitted(
    was: SendRun,
    now: SendRun,
    e: SendEvent,
    steps: Seq<SendStep>,
    next: SendAction,
)
    requires
        run_wf(was),
        in_phase(was.phase, e),
        advanced(was, now, e, steps, next),
    ensures
        next is Submit <==> e is Recorded,
        next matches SendAction::Submit(wire) ==> wire@ == (was.art->0).wire_bytes@,
        was.no_submit ==> !(next is Record),
        next is Record ==> now.phase == SendPhase::Recording,
{
}

/// What each event of a spend leads to. Whatever fails before the bytes are kept
/// ends it, and so do bytes that could not be kept: nothing that was not proved and
/// kept is ever recorded or submitted. Exactly the proved bytes are kept, the
/// record names the transaction, its nullifiers and its fee and the amount, tip and
/// recipient that were chosen, and a record that could not be written stops
/// nothing.
pub proof fn law_a_failure_ends_a_spend(
    was: SendRun,
    now: SendRun,
    e: SendEvent,
    steps: Seq<SendStep>,
    next: SendAction,
)
    requires
        run_wf(was),
        in_phase(was.phase, e),
        advanced(was, now, e, steps, next),
    ensures
        next is Preflight <==> (e matches SendEvent::Selected(Ok(_))),
        next is Prove <==> (e matches SendEvent::Preflighted(Ok(_))),
        next is Preserve <==> (e matches SendEvent::Proved(Ok(_))),
        next is Record <==> !was.no_submit && (e matches SendEvent::Preserved(Ok(_))),
        e matches SendEvent::Selected(Ok(c)) ==> now.chosen == Some(c),
        e matches SendEvent::Proved(Ok(art)) ==> now.art == Some(art),
        next matches SendAction::Preserve(wire) ==> (e matches SendEvent::Proved(Ok(art)) && wire@
            == art.wire_bytes@),
        next matches SendAction::Record(rec) ==> {
            let art = was.art->0;
            let chosen = was.chosen->0;
            &&& rec.txid == art.txid
            &&& rec.nullifiers@ == art.public.nullifiers@
            &&& rec.fee == art.public.fee
            &&& rec.amount == chosen.amount
            &&& rec.submitted_at_tip == chosen.tip
            &&& rec.recipient_short@ == chosen.recipient_short@
        },
        !(next is Finish) && !(e is Selected) ==> now.chosen == was.chosen,
        !(next is Finish) && !(e is Selected) && !(e is Preflighted) && !(e is Proved) ==> now.art
            == was.art,
        now.no_submit == was.no_submit,
{
}

/// A spend succeeds exactly where it was kept and not to be submitted, or where
/// the first word of the node's answer is that it was accepted or is already
/// pending; the outcome then has the answer, the fee, the change and the bytes of
/// the transaction. A node that names another transaction is warned of.
pub proof fn law_only_an_admission_is_a_success(
    was: SendRun,
    now: SendRun,
    e: SendEvent,
    steps: Seq<SendStep>,
    next: SendAction,
)
    requires
        run_wf(was),
        in_phase(was.phase, e),
        advanced(was, now, e, steps, next),
    ensures
        (next matches SendAction::Finish(Ok(_))) <==> was.no_submit && (e matches
            SendEvent::Preserved(Ok(_))) || (e matches SendEvent::Answered(Ok(a)) && words_of(
            a.body@,
        ).len() > 0 && (words_of(a.body@)[0] == "accepted"@ || words_of(a.body@)[0]
            == "duplicate"@)),
        next matches SendAction::Finish(Ok(o)) ==> {
            let art = was.art->0;
            &&& o.wire_bytes@ == art.wire_bytes@
            &&& o.fee == art.public.fee
            &&& o.change_value == art.change_value
            &&& o.used_dummy == art.used_dummy
            &&& o.answer == (match e {
                SendEvent::Answered(Ok(a)) => Some(a),
                _ => None,
            })
        },
        e matches SendEvent::Answered(Ok(a)) ==> {
            &&& steps.len() > 0 && (steps[0] matches SendStep::Answered { status, body } && status
                == a.status && body@ == a.body@)
            &&& (steps.len() == 2 <==> echoed_id(a.body@) is Some && echoed_id(a.body@)->0
                != hex_text((was.art->0).txid@))
            &&& steps.len() <= 2
        },
{
    if let SendEvent::Answered(Ok(a)) = e {
        crate::net::law_only_two_answers_are_in_flight(a.body@);
    }
}

/// The place of a phase in a spend.
pub open spec fn place(phase: SendPhase) -> int {
    match phase {
        SendPhase::Selecting => 0,
        SendPhase::Preflighting => 1,
        SendPhase::Proving => 2,
        SendPhase::Preserving => 3,
        SendPhase::Recording => 4,
        SendPhase::Submitting => 5,
        SendPhase::Over => 6,
    }
}

/// The phases come in their order, none twice, and a spend ends exactly where it
/// finishes: it goes on to the next phase, or it is over.
pub proof fn law_phases_come_in_order(
    was: SendRun,
    now: SendRun,
    e: SendEvent,
    steps: Seq<SendStep>,
    next: SendAction,
)
    requires
        run_wf(was),
        in_phase(was.phase, e),
        advanced(was, now, e, steps, next),
    ensures
        next is Finish <==> now.phase == SendPhase::Over,
        now.phase != SendPhase::Over ==> place(now.phase) == place(was.phase) + 1,
{
}

/// Whatever the node answers, the bytes that were submitted come back: with the
/// outcome, or with the error.
pub proof fn law_proved_bytes_come_back(
    was: SendRun,
    now: SendRun,
    answer: SubmitAnswer,
    steps: Seq<SendStep>,
    next: SendAction,
)
    requires
        run_wf(was),
        was.phase == SendPhase::Submitting,
        advanced(was, now, SendEvent::Answered(Ok(answer)), steps, next),
    ensures
        match next {
            SendAction::Finish(Ok(o)) => o.wire_bytes@ == (was.art->0).wire_bytes@,
            SendAction::Finish(Err(SendError::Answered { wire_bytes, .. })) => wire_bytes@ == (
            was.art->0).wire_bytes@,
            _ => false,
        },
{
}

} // verus!
