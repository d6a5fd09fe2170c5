//! Selection for a host that does its own fetching.
//!
//! The driver owns every decision of the first phase of a spend and does no
//! I/O: its caller alternates [`SelectDriver::step`] with one of the supply
//! functions. The stages are the spent nullifiers, the mined coins, the
//! commitment tree, the anchor, and the witness.
//!
//! Two streams fail in opposite ways. A missing nullifier stream is fatal: an
//! input that the chain already consumed could be selected. A missing coinbase
//! stream only shrinks the set of inputs, so the selection goes on, and says so
//! loudly, in an event and in any shortfall that follows.
use crate::bundle::WitnessBundle;
use crate::coinbase::{
    match_mined, CoinbaseCatchUp, CoinbaseChunk, CoinbaseRefusal, MinedNote, MinedReport,
    TRANSACTIONS_ONLY,
};
#[allow(unused_imports)]
use crate::coinbase::{
    all_mined, coinbase_taken, coinbase_unreadable_text, earliest_leaf, in_state, mined_value, tip_of,
    MinedState,
};
use crate::note::LocatedNote;
use crate::paging::{range_contains, widest_range};
#[allow(unused_imports)]
use crate::paging::{contains_range, widest};
use crate::send::{
    build_bundle, choose_inputs, BuildContext, BuildMaterial, BuildRefusal, InputPlan, Spendable,
};
#[allow(unused_imports)]
use crate::send::{
    assembled, build_refused, coverable, is_spent_by, law_planned_bundle_spends_its_notes, plans, sum_of,
};
use crate::spend::SendStep;
use crate::spent::{subtract_spent, NullifierChunk, SpentCatchUp, SpentRefusal, SpentSet};
#[allow(unused_imports)]
use crate::spent::{already_spent, nullifiers_taken, unreadable_text, unspent};
use crate::sync::{hex32, AnchorWalk, Anchors, LeafChunk, SyncRefusal, TreeCatchUp, VerifiedAnchor};
#[allow(unused_imports)]
use crate::bytes32::holds32;
#[allow(unused_imports)]
use crate::sync::{leaves_taken, unreachable_text};
use crate::text::{push_dec, push_dec_wide};
#[allow(unused_imports)]
use crate::text::{begins_at, dec, hex_text, holds_text};
#[allow(unused_imports)]
use crate::wire::lane_bytes;
use vstd::prelude::*;

verus! {

/// How a scan of one address ended.
#[derive(Clone, Debug, PartialEq, Eq)]
pub enum ScanVerdict {
    Complete,
    /// Complete, with notes that shadow one another.
    Shadowed,
    /// Anything else, in the scanner's own words.
    Partial(String),
}

/// The scan of one allocated address.
#[derive(Clone, Debug)]
pub struct ScannedAddress {
    pub div_index: u64,
    /// The address's key.
    pub rkm: [u64; 4],
    pub verdict: ScanVerdict,
    /// The heights that the scan's outputs came from.
    pub served: Option<(u64, u64)>,
    pub notes: Vec<LocatedNote>,
}

/// Which of the two endpoints a path belongs to.
#[derive(Clone, Copy, Debug, PartialEq, Eq)]
pub enum SelectEndpoint {
    /// The compact host: nullifiers and coinbase.
    Scan,
    /// The node's discovery server: leaves and anchors.
    Node,
}

/// What the driver asked the network for.
#[derive(Clone, Copy, Debug, PartialEq, Eq)]
pub enum Pending {
    Nullifiers { from: u64, to: u64 },
    Coinbase { from: u64, to: u64 },
    Leaves { from: u64 },
    Anchors,
}

/// A decoded answer.
pub enum Page {
    Nullifiers(NullifierChunk),
    Coinbase(CoinbaseChunk),
    Leaves(LeafChunk),
    Anchors(Anchors),
}

/// Why there is no decoded answer.
pub enum FetchFault {
    /// The exchange failed, in the transport's words.
    Transport(String),
    /// The answer did not decode, in the decoder's words.
    Decode(String),
}

/// The chosen notes whose keys, positions and paths a bundle needs.
pub struct WitnessRequest {
    pub plan: InputPlan,
    pub first: Spendable,
    pub second: Option<Spendable>,
    pub anchor: VerifiedAnchor,
}

/// One observation of the driver. `Done` and `Failed` are final.
pub enum SelectStep {
    /// Fetch this path, decode the answer and supply it.
    Need { endpoint: SelectEndpoint, path: String },
    /// Supply the root of the first `count` leaves.
    Root { count: u64 },
    /// Supply what the chosen notes' bundle is built from.
    Witness(WitnessRequest),
    Done(WitnessBundle),
    Failed(String),
}

/// How far the driver is.
#[derive(Clone, Copy, Debug, PartialEq, Eq)]
pub enum Stage {
    Spent,
    Coinbase,
    Tree,
    Anchors,
    Walk,
    Witness,
    Finished,
}

impl Pending {
    /// The path of the request.
    pub open spec fn path_text(self) -> Seq<char> {
        match self {
            Pending::Nullifiers { from, to } => "/v1/nullifiers?from="@ + dec(from as nat) + "&to="@
                + dec(to as nat),
            Pending::Coinbase { from, to } => "/v1/coinbase?from="@ + dec(from as nat) + "&to="@
                + dec(to as nat),
            Pending::Leaves { from } => "/v1/tree/leaves?from="@ + dec(from as nat),
            Pending::Anchors => "/v1/anchors"@,
        }
    }

    /// The path of the request.
    pub fn path_of(self) -> (r: String)
        ensures
            r@ == self.path_text(),
    {
        let mut s: String = String::new();
        match self {
            Pending::Nullifiers { from, to } => {
                s.append("/v1/nullifiers?from=");
                push_dec(&mut s, from);
                s.append("&to=");
                push_dec(&mut s, to);
            },
            Pending::Coinbase { from, to } => {
                s.append("/v1/coinbase?from=");
                push_dec(&mut s, from);
                s.append("&to=");
                push_dec(&mut s, to);
            },
            Pending::Leaves { from } => {
                s.append("/v1/tree/leaves?from=");
                push_dec(&mut s, from);
            },
            Pending::Anchors => s.append("/v1/anchors"),
        }
        assert(s@ =~= self.path_text());
        s
    }

    /// The endpoint that answers the request.
    pub open spec fn host(self) -> SelectEndpoint {
        match self {
            Pending::Nullifiers { .. } | Pending::Coinbase { .. } => SelectEndpoint::Scan,
            Pending::Leaves { .. } | Pending::Anchors => SelectEndpoint::Node,
        }
    }

    /// The step that asks for this.
    pub fn need_for(self) -> (r: SelectStep)
        ensures
            is_need(r, self),
    {
        let endpoint = match self {
            Pending::Nullifiers { .. } | Pending::Coinbase { .. } => SelectEndpoint::Scan,
            Pending::Leaves { .. } | Pending::Anchors => SelectEndpoint::Node,
        };
        SelectStep::Need { endpoint, path: self.path_of() }
    }
}

/// The step asks for `p`, and for nothing else.
pub open spec fn is_need(step: SelectStep, p: Pending) -> bool {
    step matches SelectStep::Need { endpoint, path } && endpoint == p.host() && path@ == p.path_text()
}

/// The step fails with the given words.
pub open spec fn is_failed(step: SelectStep, why: Seq<char>) -> bool {
    step matches SelectStep::Failed(w) && w@ == why
}

/// The option holds a string with the given words.
pub open spec fn says(s: Option<String>, why: Seq<char>) -> bool {
    s matches Some(w) && w@ == why
}

/// The words of a string that may be absent.
pub open spec fn words(s: Option<String>) -> Option<Seq<char>> {
    match s {
        Some(w) => Some(w@),
        None => None,
    }
}

/// Why the first scan that ended in a partial verdict keeps the spend from
/// being built.
pub open spec fn verdict_fault(scanned: Seq<ScannedAddress>) -> Option<Seq<char>>
    decreases scanned.len(),
{
    if scanned.len() == 0 {
        None
    } else {
        match scanned[0].verdict {
            ScanVerdict::Partial(shown) => Some(
                "index "@ + dec(scanned[0].div_index as nat) + " scanned "@ + shown@
                    + " — refusing to build a spend on partial knowledge (a double-claimed nullifier could be among the unread outputs)"@,
            ),
            _ => verdict_fault(scanned.skip(1)),
        }
    }
}

fn check_verdicts(scanned: &[ScannedAddress]) -> (r: Option<String>)
    ensures
        words(r) == verdict_fault(scanned@),
{
    let mut i: usize = 0;
    assert(scanned@.skip(0) =~= scanned@);
    while i < scanned.len()
        invariant
            i <= scanned@.len(),
            verdict_fault(scanned@.skip(i as int)) == verdict_fault(scanned@),
        decreases scanned@.len() - i,
    {
        assert(scanned@.skip(i as int)[0] == scanned@[i as int]);
        assert(scanned@.skip(i as int).skip(1) =~= scanned@.skip(i + 1));
        match &scanned[i].verdict {
            ScanVerdict::Partial(shown) => {
                let mut s: String = String::new();
                s.append("index ");
                push_dec(&mut s, scanned[i].div_index);
                s.append(" scanned ");
                s.append(shown.as_str());
                s.append(
                    " — refusing to build a spend on partial knowledge (a double-claimed nullifier could be among the unread outputs)",
                );
                assert(s@ =~= verdict_fault(scanned@)->0);
                return Some(s);
            },
            _ => {},
        }
        i += 1;
    }
    None
}

/// The heights that the scans' outputs came from.
pub open spec fn served_ranges(scanned: Seq<ScannedAddress>) -> Seq<Option<(u64, u64)>> {
    Seq::new(scanned.len(), |i: int| scanned[i].served)
}

/// The scanned addresses' keys.
pub open spec fn keys_of(scanned: Seq<ScannedAddress>) -> Seq<(u64, [u64; 4])> {
    Seq::new(scanned.len(), |i: int| (scanned[i].div_index, scanned[i].rkm))
}

/// A scanned note as an input.
pub open spec fn as_input(div_index: u64, n: LocatedNote) -> Spendable {
    Spendable { div_index, value: n.note.value, rho: n.note.rho, rseed: n.note.rseed }
}

/// Scanned notes as inputs.
pub open spec fn as_inputs(div_index: u64, notes: Seq<LocatedNote>) -> Seq<Spendable> {
    Seq::new(notes.len(), |i: int| as_input(div_index, notes[i]))
}

/// The transaction outputs that are not spent, address by address.
pub open spec fn tx_inputs(scanned: Seq<ScannedAddress>, set: SpentSet) -> Seq<Spendable>
    decreases scanned.len(),
{
    if scanned.len() == 0 {
        Seq::empty()
    } else {
        tx_inputs(scanned.drop_last(), set) + as_inputs(
            scanned.last().div_index,
            unspent(scanned.last().notes@, set),
        )
    }
}

/// How many transaction outputs are spent.
pub open spec fn tx_spent(scanned: Seq<ScannedAddress>, set: SpentSet) -> nat
    decreases scanned.len(),
{
    if scanned.len() == 0 {
        0
    } else {
        tx_spent(scanned.drop_last(), set) + already_spent(scanned.last().notes@, set).len()
    }
}

/// Whether the nullifier stream reached every height in which a mined note
/// could have been spent.
pub open spec fn checked(covered: Option<(u64, u64)>, to: u64, n: MinedNote) -> bool {
    contains_range(covered, (n.minted_height, to))
}

/// A mined note as an input.
pub open spec fn mined_input(n: MinedNote) -> Spendable {
    Spendable { div_index: n.div_index, value: n.note.value, rho: n.note.rho, rseed: n.note.rseed }
}

/// The mined notes that were checked against the nullifiers, as inputs.
pub open spec fn mined_inputs(notes: Seq<MinedNote>, covered: Option<(u64, u64)>, to: u64) -> Seq<
    Spendable,
>
    decreases notes.len(),
{
    if notes.len() == 0 {
        Seq::empty()
    } else {
        let front = mined_inputs(notes.drop_last(), covered, to);
        if checked(covered, to, notes.last()) {
            front.push(mined_input(notes.last()))
        } else {
            front
        }
    }
}

/// A count as it is reported.
pub open spec fn clamp(n: nat) -> usize {
    if n <= usize::MAX {
        n as usize
    } else {
        usize::MAX
    }
}

/// The sentence that says that mined coins could not be seen.
pub open spec fn degradation(why: Seq<char>) -> Seq<char> {
    "coinbase was NOT visible to this send — its inputs are "@ + TRANSACTIONS_ONLY@ + " ("@ + why
        + "). If this wallet's rkm mines, what it earned was not among the inputs considered."@
}

/// What a shortfall says beside the shortfall.
pub open spec fn shortfall_text(gap: Option<Seq<char>>, mined: Option<MinedReport>) -> Seq<char> {
    match gap {
        Some(why) => " 🔴 "@ + degradation(why)
            + " So this refusal is NOT evidence that the balance is too low: a node that serves GET /v1/coinbase may answer it differently."@,
        None => match mined {
            Some(m) => if m.maturing@.len() > 0 {
                " Coinbase WAS visible, and this wallet holds "@ + dec(mined_value(m.maturing@))
                    + " bessel of mined coins that are not spendable yet — the earliest matures at height "@
                    + dec(earliest_leaf(m.maturing@)->0 as nat) + ", stated as of tip "@ + dec(
                    m.as_of as nat,
                ) + ". You have it; it is not available at this height."@
            } else {
                Seq::empty()
            },
            None => Seq::empty(),
        },
    }
}

/// The words behind a refusal of the nullifier stream.
pub open spec fn unsafe_text(e: SpentRefusal) -> Seq<char> {
    e.text() + " — refusing to select inputs this wallet may already have spent"@
}

fn unsafe_of(e: &SpentRefusal) -> (r: String)
    ensures
        r@ == unsafe_text(*e),
{
    let mut s = e.message();
    s.append(" — refusing to select inputs this wallet may already have spent");
    s
}

/// The driver of the first phase.
pub struct SelectDriver {
    pub recipient_short: String,
    pub amount: u64,
    pub posted_fee: u64,
    pub name_fee: u64,
    /// The height that the scans ran to.
    pub to: u64,
    pub scanned: Vec<ScannedAddress>,
    /// The heights that the scans' outputs came from.
    pub outputs: Option<(u64, u64)>,
    pub stage: Stage,
    pub spent: SpentCatchUp,
    pub coinbase: CoinbaseCatchUp,
    pub tree: TreeCatchUp,
    pub anchors: Option<Anchors>,
    pub walk: Option<AnchorWalk>,
    pub anchor: Option<VerifiedAnchor>,
    pub plan: Option<InputPlan>,
    pub material: Option<BuildMaterial>,
    pub pending: Option<Pending>,
    pub fatal: Option<String>,
    pub events: Vec<SendStep>,
    pub spendables: Vec<Spendable>,
    /// What this wallet mined; `None` if it could not be seen.
    pub mined: Option<MinedReport>,
    /// Why not all of the mined coins could be seen.
    pub coinbase_gap: Option<String>,
    /// How many of this wallet's notes the chain has already consumed.
    pub skipped_spent: usize,
}

impl SelectDriver {
    /// What every driver keeps.
    pub open spec fn wf(&self) -> bool {
        &&& self.spent.wf() && self.coinbase.wf() && self.tree.wf()
        &&& self.spent.to == self.to && self.coinbase.to == self.to
        &&& self.stage is Spent ==> !self.coinbase.done && self.coinbase_gap is None
        &&& self.stage is Spent || self.stage is Coinbase ==> {
            &&& !self.tree.done
            &&& self.spendables@.len() == 0
            &&& self.skipped_spent == 0
            &&& self.mined is None
        }
        &&& !(self.stage is Spent) ==> self.outputs is None || contains_range(
            self.spent.set.covered,
            self.outputs->0,
        )
        &&& self.walk matches Some(w) ==> w.wf()
        &&& self.pending matches Some(Pending::Coinbase { .. }) ==> self.stage is Coinbase
        &&& self.stage is Walk ==> self.walk is Some
        &&& self.plan is Some ==> self.stage is Witness || self.stage is Finished
        &&& self.stage is Witness ==> self.plan is Some && self.anchor is Some
        &&& self.plan matches Some(p) ==> plans(
            p,
            self.spendables@,
            self.amount,
            self.posted_fee + self.name_fee,
        )
    }

    /// The driver of a spend of `amount`, over the scans that the caller made
    /// up to the height `to` and the leaves that it holds. Scans that ended in
    /// a partial verdict are fatal here too.
    pub fn new(
        recipient_short: String,
        amount: u64,
        posted_fee: u64,
        name_fee: u64,
        scanned: Vec<ScannedAddress>,
        held: Vec<[u8; 32]>,
        to: u64,
    ) -> (r: SelectDriver)
        ensures
            r.wf(),
            r.recipient_short == recipient_short,
            r.amount == amount && r.posted_fee == posted_fee && r.name_fee == name_fee,
            r.to == to,
            r.scanned == scanned,
            r.outputs == widest(served_ranges(scanned@)),
            r.stage is Spent,
            r.spent.from == 0 && r.spent.cursor == 0 && !r.spent.done,
            r.spent.set.covered is None,
            forall|nf: Seq<u8>| (#[trigger] r.spent.set.height(nf)) is None,
            r.coinbase.from == 0 && r.coinbase.cursor == 0 && r.coinbase.chain.covered is None,
            r.tree.leaves@ == held@ && r.tree.start == held@.len() && !r.tree.done,
            r.pending is None,
            words(r.fatal) == verdict_fault(scanned@),
            r.events@.len() == 0 && r.spendables@.len() == 0,
            r.anchors is None && r.walk is None && r.anchor is None && r.plan is None,
            r.material is None && r.mined is None && r.coinbase_gap is None,
            r.skipped_spent == 0,
    {
        let fatal = check_verdicts(&scanned);
        let mut ranges: Vec<Option<(u64, u64)>> = Vec::new();
        let mut i: usize = 0;
        while i < scanned.len()
            invariant
                i <= scanned@.len(),
                ranges@ == served_ranges(scanned@).take(i as int),
            decreases scanned@.len() - i,
        {
            ranges.push(scanned[i].served);
            assert(served_ranges(scanned@).take(i + 1) =~= ranges@);
            i += 1;
        }
        assert(served_ranges(scanned@).take(i as int) =~= served_ranges(scanned@));
        let outputs = widest_range(&ranges);
        SelectDriver {
            recipient_short,
            amount,
            posted_fee,
            name_fee,
            to,
            scanned,
            outputs,
            stage: Stage::Spent,
            spent: SpentCatchUp::new(0, to),
            coinbase: CoinbaseCatchUp::new(0, to),
            tree: TreeCatchUp::new(held),
            anchors: None,
            walk: None,
            anchor: None,
            plan: None,
            material: None,
            pending: None,
            fatal,
            events: Vec::new(),
            spendables: Vec::new(),
            mined: None,
            coinbase_gap: None,
            skipped_spent: 0,
        }
    }

    /// What happened since the last call, in order.
    pub fn take_events(&mut self) -> (r: Vec<SendStep>)
        requires
            old(self).wf(),
        ensures
            final(self).wf(),
            r@ == old(self).events@,
            final(self).events@.len() == 0,
            *final(self) == (SelectDriver { events: final(self).events, ..*old(self) }),
    {
        let mut out: Vec<SendStep> = Vec::new();
        std::mem::swap(&mut out, &mut self.events);
        out
    }

    /// The caught-up leaves, once the leaf stage is over.
    pub fn tree(&self) -> (r: Option<&Vec<[u8; 32]>>)
        ensures
            self.tree.done ==> r == Some(&self.tree.leaves),
            !self.tree.done ==> r is None,
    {
        if self.tree.done {
            Some(&self.tree.leaves)
        } else {
            None
        }
    }

    fn fail(&mut self, why: String) -> (r: SelectStep)
        requires
            old(self).wf(),
        ensures
            final(self).wf(),
            is_failed(r, why@),
            says(final(self).fatal, why@),
            *final(self) == (SelectDriver { fatal: final(self).fatal, ..*old(self) }),
    {
        self.fatal = Some(why.clone());
        SelectStep::Failed(why)
    }

    /// What a value shortfall, and only a value shortfall, says beside itself.
    fn shortfall_context(&self) -> (r: String)
        ensures
            r@ == shortfall_text(words(self.coinbase_gap), self.mined),
    {
        let mut s: String = String::new();
        match &self.coinbase_gap {
            Some(why) => {
                let line = degradation_of(why.as_str());
                s.append(" 🔴 ");
                s.append(line.as_str());
                s.append(
                    " So this refusal is NOT evidence that the balance is too low: a node that serves GET /v1/coinbase may answer it differently.",
                );
                assert(s@ =~= shortfall_text(words(self.coinbase_gap), self.mined));
            },
            None => {
                match &self.mined {
                    Some(m) => {
                        match m.next_maturity() {
                            Some(h) => {
                                s.append(" Coinbase WAS visible, and this wallet holds ");
                                push_dec_wide(&mut s, m.maturing_value());
                                s.append(
                                    " bessel of mined coins that are not spendable yet — the earliest matures at height ",
                                );
                                push_dec(&mut s, h);
                                s.append(", stated as of tip ");
                                push_dec(&mut s, m.as_of);
                                s.append(". You have it; it is not available at this height.");
                                assert(s@ =~= shortfall_text(
                                    words(self.coinbase_gap),
                                    self.mined,
                                ));
                            },
                            None => {},
                        }
                    },
                    None => {},
                }
            },
        }
        assert(s@ =~= shortfall_text(words(self.coinbase_gap), self.mined));
        s
    }
}

fn degradation_of(why: &str) -> (r: String)
    ensures
        r@ == degradation(why@),
{
    let mut s: String = String::new();
    s.append("coinbase was NOT visible to this send — its inputs are ");
    s.append(TRANSACTIONS_ONLY);
    s.append(" (");
    s.append(why);
    s.append(
        "). If this wallet's rkm mines, what it earned was not among the inputs considered.",
    );
    assert(s@ =~= degradation(why@));
    s
}

/// What the mined half of a selection comes to.
pub open spec fn mined_all(d: SelectDriver) -> Seq<MinedNote> {
    all_mined(keys_of(d.scanned@), d.coinbase.chain.blocks@, d.spent.set, tip_of(d.coinbase.chain))
}

/// Whether the coinbase stream was read without a fault and served a block.
pub open spec fn sees_mined(d: SelectDriver) -> bool {
    d.coinbase_gap is None && d.coinbase.chain.covered is Some
}

/// The matured, unspent notes that this wallet mined.
pub open spec fn mined_ready(d: SelectDriver) -> Seq<MinedNote> {
    in_state(mined_all(d), MinedState::Spendable)
}

/// The inputs of a selection: the transaction outputs that are not spent, then
/// the matured mined notes that could be checked.
pub open spec fn selected_inputs(d: SelectDriver) -> Seq<Spendable> {
    if sees_mined(d) {
        tx_inputs(d.scanned@, d.spent.set) + mined_inputs(mined_ready(d), d.spent.set.covered, d.to)
    } else {
        tx_inputs(d.scanned@, d.spent.set)
    }
}

/// How many of the inputs are mined.
pub open spec fn selected_mined(d: SelectDriver) -> nat {
    if sees_mined(d) {
        mined_inputs(mined_ready(d), d.spent.set.covered, d.to).len()
    } else {
        0
    }
}

/// How many matured mined notes lie where the nullifier stream did not reach.
pub open spec fn unchecked_count(d: SelectDriver) -> int {
    if sees_mined(d) {
        mined_ready(d).len() - mined_inputs(mined_ready(d), d.spent.set.covered, d.to).len()
    } else {
        0
    }
}

/// How many of this wallet's notes are already spent.
pub open spec fn selected_skipped(d: SelectDriver) -> nat {
    tx_spent(d.scanned@, d.spent.set) + (if sees_mined(d) {
        in_state(mined_all(d), MinedState::Spent).len()
    } else {
        0
    })
}

/// Why not all of the mined coins are among the inputs.
pub open spec fn selected_gap(d: SelectDriver) -> Option<Seq<char>> {
    if d.coinbase_gap is Some {
        words(d.coinbase_gap)
    } else if unchecked_count(d) > 0 {
        Some(
            dec(unchecked_count(d) as nat)
                + " matured mined note(s) lie at heights the nullifier stream did not cover, so this send could not tell whether they are already spent and left them out"@,
        )
    } else if !contains_range(d.coinbase.chain.covered, (0, d.to)) {
        Some(
            (CoinbaseRefusal::NotCovered { covered: d.coinbase.chain.covered, wanted: (0, d.to) }).text(),
        )
    } else {
        None
    }
}

/// `now` is `before` with its inputs selected; how far it is and what it waits
/// for is left open.
pub open spec fn selection_made(before: SelectDriver, now: SelectDriver) -> bool {
    &&& now == (SelectDriver {
        stage: now.stage,
        pending: now.pending,
        fatal: now.fatal,
        spendables: now.spendables,
        skipped_spent: now.skipped_spent,
        coinbase_gap: now.coinbase_gap,
        mined: now.mined,
        events: now.events,
        ..before
    })
    &&& now.spendables@ == selected_inputs(before)
    &&& now.skipped_spent == clamp(selected_skipped(before))
    &&& words(now.coinbase_gap) == selected_gap(before)
    &&& sees_mined(before) ==> {
        &&& now.mined matches Some(m)
        &&& m.spendable@ == mined_ready(before)
        &&& m.maturing@ == in_state(mined_all(before), MinedState::Maturing)
        &&& m.spent@ == in_state(mined_all(before), MinedState::Spent)
        &&& m.as_of == tip_of(before.coinbase.chain)
    }
    &&& !sees_mined(before) ==> now.mined == before.mined
    &&& selection_events(before, now)
}

/// The events of a selection: the degradation, if there is one, then the
/// count.
pub open spec fn selection_events(before: SelectDriver, now: SelectDriver) -> bool {
    let n = before.events@.len();
    let selected = SendStep::Selected {
        spendable: selected_inputs(before).len() as usize,
        skipped_spent: clamp(selected_skipped(before)),
        mined: selected_mined(before) as usize,
    };
    match selected_gap(before) {
        Some(why) => {
            &&& now.events@.len() == n + 2
            &&& now.events@.take(n as int) == before.events@
            &&& now.events@[n as int] matches SendStep::CoinbaseUnavailable { why: line } && line@
                == degradation(why)
            &&& now.events@[n as int + 1] == selected
        },
        None => now.events@ == before.events@.push(selected),
    }
}

/// The words of an empty selection.
pub open spec fn nothing_spendable(d: SelectDriver) -> Seq<char> {
    "no spendable notes: the scan of 0..="@ + dec(d.to as nat)
        + " found nothing this wallet can spend ("@ + dec(d.skipped_spent as nat)
        + " note(s) it found are already spent). If you expect a received note, check that its address index is allocated here."@
        + shortfall_text(words(d.coinbase_gap), d.mined)
}

proof fn lemma_mined_inputs_len(notes: Seq<MinedNote>, covered: Option<(u64, u64)>, to: u64)
    ensures
        mined_inputs(notes, covered, to).len() <= notes.len(),
    decreases notes.len(),
{
    if notes.len() > 0 {
        lemma_mined_inputs_len(notes.drop_last(), covered, to);
    }
}

impl SelectDriver {
    /// Adds the scans' unspent notes to the inputs, and counts the spent ones.
    fn select_outputs(&mut self)
        requires
            old(self).wf(),
            old(self).stage is Tree,
            old(self).plan is None,
            old(self).spendables@.len() == 0,
            old(self).skipped_spent == 0,
        ensures
            final(self).wf(),
            *final(self) == (SelectDriver {
                spendables: final(self).spendables,
                skipped_spent: final(self).skipped_spent,
                ..*old(self)
            }),
            final(self).spendables@ == tx_inputs(old(self).scanned@, old(self).spent.set),
            final(self).skipped_spent == clamp(tx_spent(old(self).scanned@, old(self).spent.set)),
    {
        let ghost set = self.spent.set;
        let ghost all = self.scanned@;
        let mut i: usize = 0;
        assert(all.take(0) =~= Seq::empty());
        assert(self.spendables@ =~= tx_inputs(all.take(0), set));
        while i < self.scanned.len()
            invariant
                i <= self.scanned@.len(),
                *self == (SelectDriver {
                    spendables: self.spendables,
                    skipped_spent: self.skipped_spent,
                    ..*old(self)
                }),
                old(self).wf() && old(self).plan is None && old(self).stage is Tree,
                all == self.scanned@,
                set == self.spent.set,
                self.spendables@ == tx_inputs(all.take(i as int), set),
                self.skipped_spent == clamp(tx_spent(all.take(i as int), set)),
            decreases self.scanned@.len() - i,
        {
            let div_index: u64 = self.scanned[i].div_index;
            assert(all.take(i + 1).drop_last() =~= all.take(i as int));
            let report = subtract_spent(&self.scanned[i].notes, &self.spent.set);
            self.skipped_spent = self.skipped_spent.saturating_add(report.spent.len());
            let ghost before = self.spendables@;
            let ghost notes = report.spendable@;
            let mut k: usize = 0;
            assert(before + as_inputs(div_index, notes.take(0)) =~= before);
            while k < report.spendable.len()
                invariant
                    k <= report.spendable@.len(),
                    notes == report.spendable@,
                    *self == (SelectDriver {
                        spendables: self.spendables,
                        skipped_spent: self.skipped_spent,
                        ..*old(self)
                    }),
                    self.skipped_spent == clamp(tx_spent(all.take(i + 1), set)),
                    self.spendables@ == before + as_inputs(div_index, notes.take(k as int)),
                decreases report.spendable@.len() - k,
            {
                let n = report.spendable[k];
                self.spendables.push(
                    Spendable {
                        div_index,
                        value: n.note.value,
                        rho: n.note.rho,
                        rseed: n.note.rseed,
                    },
                );
                assert(self.spendables@ =~= before + as_inputs(div_index, notes.take(k + 1)));
                k += 1;
            }
            proof {
                assert(notes.take(k as int) =~= notes);
            }
            i += 1;
        }
        assert(all.take(i as int) =~= all);
    }

    /// Adds the matured mined notes that could be checked to the inputs.
    fn select_mined(&mut self, report: &MinedReport) -> (mined: usize)
        requires
            old(self).wf(),
            old(self).stage is Tree,
            old(self).plan is None,
        ensures
            final(self).wf(),
            *final(self) == (SelectDriver { spendables: final(self).spendables, ..*old(self) }),
            final(self).spendables@ == old(self).spendables@ + mined_inputs(
                report.spendable@,
                old(self).spent.set.covered,
                old(self).to,
            ),
            mined as nat == mined_inputs(
                report.spendable@,
                old(self).spent.set.covered,
                old(self).to,
            ).len(),
    {
        let ghost notes = report.spendable@;
        let ghost covered = self.spent.set.covered;
        let ghost before = self.spendables@;
        let mut mined: usize = 0;
        let mut i: usize = 0;
        assert(notes.take(0) =~= Seq::empty());
        assert(before + mined_inputs(notes.take(0), covered, self.to) =~= before);
        while i < report.spendable.len()
            invariant
                i <= report.spendable@.len(),
                mined <= i,
                notes == report.spendable@,
                *self == (SelectDriver { spendables: self.spendables, ..*old(self) }),
                old(self).wf() && old(self).plan is None && old(self).stage is Tree,
                covered == self.spent.set.covered,
                self.spendables@ == before + mined_inputs(notes.take(i as int), covered, self.to),
                mined as nat == mined_inputs(notes.take(i as int), covered, self.to).len(),
            decreases report.spendable@.len() - i,
        {
            let n = report.spendable[i];
            assert(notes.take(i + 1).drop_last() =~= notes.take(i as int));
            if range_contains(self.spent.set.covered, (n.minted_height, self.to)) {
                self.spendables.push(
                    Spendable {
                        div_index: n.div_index,
                        value: n.note.value,
                        rho: n.note.rho,
                        rseed: n.note.rseed,
                    },
                );
                assert(self.spendables@ =~= before + mined_inputs(
                    notes.take(i + 1),
                    covered,
                    self.to,
                ));
                mined += 1;
            }
            i += 1;
        }
        assert(notes.take(i as int) =~= notes);
        mined
    }

    fn keys(&self) -> (r: Vec<(u64, [u64; 4])>)
        ensures
            r@ == keys_of(self.scanned@),
    {
        let mut r: Vec<(u64, [u64; 4])> = Vec::new();
        let mut i: usize = 0;
        while i < self.scanned.len()
            invariant
                i <= self.scanned@.len(),
                r@ == keys_of(self.scanned@).take(i as int),
            decreases self.scanned@.len() - i,
        {
            r.push((self.scanned[i].div_index, self.scanned[i].rkm));
            assert(keys_of(self.scanned@).take(i + 1) =~= r@);
            i += 1;
        }
        assert(keys_of(self.scanned@).take(i as int) =~= keys_of(self.scanned@));
        r
    }

    /// Builds the set of inputs, and says what it could not see.
    fn select_inputs(&mut self)
        requires
            old(self).wf(),
            old(self).stage is Tree,
            old(self).plan is None,
            old(self).spendables@.len() == 0,
            old(self).skipped_spent == 0,
        ensures
            final(self).wf(),
            selection_made(*old(self), *final(self)),
            final(self).stage == old(self).stage,
            final(self).pending == old(self).pending,
            final(self).fatal == old(self).fatal,
    {
        let visible: bool = self.coinbase_gap.is_none();
        if visible {
            match self.coinbase.chain.covers(Some((0, self.to))) {
                Ok(()) => {},
                Err(e) => {
                    self.coinbase_gap = Some(e.message());
                },
            }
        }
        self.select_outputs();
        let mut mined: usize = 0;
        if visible && self.coinbase.chain.covered.is_some() {
            let keys = self.keys();
            let report = match_mined(&keys, &self.coinbase.chain, &self.spent.set);
            self.skipped_spent = self.skipped_spent.saturating_add(report.spent.len());
            mined = self.select_mined(&report);
            proof {
                lemma_mined_inputs_len(report.spendable@, self.spent.set.covered, self.to);
            }
            let unchecked: usize = report.spendable.len() - mined;
            if unchecked > 0 {
                let mut s: String = String::new();
                push_dec(&mut s, unchecked as u64);
                s.append(
                    " matured mined note(s) lie at heights the nullifier stream did not cover, so this send could not tell whether they are already spent and left them out",
                );
                assert(s@ =~= selected_gap(*old(self))->0);
                self.coinbase_gap = Some(s);
            }
            self.mined = Some(report);
        }
        assert(words(self.coinbase_gap) == selected_gap(*old(self)));
        match &self.coinbase_gap {
            Some(why) => {
                let line = degradation_of(why.as_str());
                self.events.push(SendStep::CoinbaseUnavailable { why: line });
            },
            None => {},
        }
        self.events.push(
            SendStep::Selected {
                spendable: self.spendables.len(),
                skipped_spent: self.skipped_spent,
                mined,
            },
        );
        proof {
            if selected_gap(*old(self)) is Some {
                assert(self.events@.take(old(self).events@.len() as int) =~= old(self).events@);
            }
        }
    }
}

/// The event of a chosen anchor.
pub open spec fn is_tree_event(e: SendStep, d: SelectDriver, a: VerifiedAnchor) -> bool {
    e matches SendStep::Tree {
        held,
        fetched,
        anchor_count,
        anchor_root,
        node_tip,
        finalized,
        anchor_behind,
    } && held == d.tree.leaves@.len() && fetched == d.tree.leaves@.len() - d.tree.start
        && anchor_count == a.count && anchor_root@ == hex_text(a.root@) && node_tip == a.tip_height
        && finalized == a.finalized_height && anchor_behind == a.leaves_behind_local
}

/// The words of a refused plan: a shortfall of value, and nothing else, says
/// what of the mined coins was not seen or is not mature.
pub open spec fn plan_words(e: BuildRefusal, d: SelectDriver) -> Seq<char> {
    if e is CannotCover {
        e.text() + shortfall_text(words(d.coinbase_gap), d.mined)
    } else {
        e.text()
    }
}

/// Why the inputs cannot cover the spend.
pub open spec fn plan_refusal(d: SelectDriver) -> BuildRefusal {
    let fee = d.posted_fee + d.name_fee;
    if fee > u64::MAX {
        BuildRefusal::FeeOverflow
    } else if d.amount + fee > u64::MAX {
        BuildRefusal::AmountOverflow
    } else {
        BuildRefusal::CannotCover {
            need: (d.amount + fee) as u64,
            amount: d.amount,
            fee: fee as u64,
            have: sum_of(d.spendables@) as u128,
        }
    }
}

/// Whether the inputs cover the spend.
pub open spec fn can_plan(d: SelectDriver) -> bool {
    d.amount + d.posted_fee + d.name_fee <= u64::MAX && coverable(
        d.spendables@,
        d.amount,
        d.posted_fee + d.name_fee,
    )
}

/// The step asks for the witness of the plan.
pub open spec fn is_request(r: SelectStep, d: SelectDriver, plan: InputPlan, a: VerifiedAnchor) -> bool {
    r matches SelectStep::Witness(w) && w.plan == plan && w.first == d.spendables@[plan.first as int]
        && w.anchor == a && match plan.second {
        Some(j) => w.second == Some(d.spendables@[j as int]),
        None => w.second is None,
    }
}

/// The anchor `a` is announced, and the inputs are planned: the fewest that
/// cover, or the reason why none do.
pub open spec fn planned(before: SelectDriver, now: SelectDriver, r: SelectStep, a: VerifiedAnchor) -> bool {
    &&& if can_plan(before) {
        &&& now.plan matches Some(plan) && plans(
            plan,
            before.spendables@,
            before.amount,
            before.posted_fee + before.name_fee,
        )
        &&& is_request(r, before, now.plan->0, a)
        &&& now.stage is Witness && now.fatal is None
    } else {
        let why = plan_words(plan_refusal(before), before);
        &&& is_failed(r, why)
        &&& says(now.fatal, why)
        &&& now.stage is Walk && now.plan is None
    }
    &&& now.events@.len() == before.events@.len() + 1
    &&& now.events@.drop_last() == before.events@
    &&& is_tree_event(now.events@.last(), before, a)
    &&& now == (SelectDriver {
        fatal: now.fatal,
        plan: now.plan,
        stage: now.stage,
        events: now.events,
        ..before
    })
}

/// What the bundle is built around.
pub open spec fn is_context(ctx: BuildContext, d: SelectDriver) -> bool {
    &&& ctx.amount == d.amount
    &&& d.anchor matches Some(a) && ctx.anchor_count == a.count && ctx.anchor_root == a.root
        && ctx.anchor_tip_height == a.tip_height
    &&& ctx.recipient_short@ == d.recipient_short@
    &&& ctx.output_range == d.outputs
    &&& ctx.spent_covered == d.spent.set.covered
}

/// What one step comes to, from each place where a driver can stand.
pub open spec fn stepped(before: SelectDriver, now: SelectDriver, r: SelectStep) -> bool {
    // A failure is for good, and a request stays until it is answered.
    &&& before.fatal matches Some(w) ==> is_failed(r, w@) && now == before
    &&& before.fatal is None && before.pending is Some ==> is_need(
        r,
        before.pending->0,
    ) && now == before
    // The spent nullifiers: to the end, then over every output.
    &&& before.free() && before.stage is Spent && !before.spent.done ==> {
        let p = Pending::Nullifiers { from: before.spent.cursor, to: before.to };
        is_need(r, p) && now == (SelectDriver { pending: Some(p), ..before })
    }
    &&& before.free() && before.stage is Spent && before.spent.done ==> {
        if before.outputs is None || contains_range(
            before.spent.set.covered,
            before.outputs->0,
        ) {
            let p = Pending::Coinbase { from: before.coinbase.cursor, to: before.to };
            &&& is_need(r, p)
            &&& now == (SelectDriver {
                pending: Some(p),
                stage: Stage::Coinbase,
                ..before
            })
        } else {
            let why = unsafe_text(
                SpentRefusal::NotCovered {
                    covered: before.spent.set.covered,
                    outputs: before.outputs->0,
                },
            );
            &&& is_failed(r, why)
            &&& says(now.fatal, why)
            &&& now == (SelectDriver { fatal: now.fatal, ..before })
        }
    }
    // The mined coins: to the end, or to the first fault.
    &&& before.free() && before.stage is Coinbase && !before.coinbase.done && before.coinbase_gap is None ==> {
        let p = Pending::Coinbase { from: before.coinbase.cursor, to: before.to };
        is_need(r, p) && now == (SelectDriver { pending: Some(p), ..before })
    }
    &&& before.free() && before.stage is Coinbase && (before.coinbase.done || before.coinbase_gap is Some) ==> {
        &&& selection_made(before, now)
        &&& if selected_inputs(before).len() == 0 {
            let why = nothing_spendable(now);
            &&& is_failed(r, why)
            &&& says(now.fatal, why)
            &&& now.stage is Tree && now.pending is None
        } else {
            let p = Pending::Leaves { from: before.tree.leaves@.len() as u64 };
            &&& is_need(r, p)
            &&& now.pending == Some(p)
            &&& now.stage is Tree && now.fatal is None
        }
    }
    // The tree: to the end, then the anchors.
    &&& before.free() && before.stage is Tree ==> {
        let p = if before.tree.done {
            Pending::Anchors
        } else {
            Pending::Leaves { from: before.tree.leaves@.len() as u64 }
        };
        &&& is_need(r, p)
        &&& now == (SelectDriver {
            pending: Some(p),
            stage: if before.tree.done {
                Stage::Anchors
            } else {
                Stage::Tree
            },
            ..before
        })
    }
    &&& before.free() && before.stage is Anchors && before.anchors is None ==> {
        is_need(r, Pending::Anchors) && now == (SelectDriver {
            pending: Some(Pending::Anchors),
            ..before
        })
    }
    // The walk from the local tip down to a served root.
    &&& before.free() && before.stage is Anchors && before.anchors is Some ==> {
        let anchors = before.anchors->0;
        let local = before.tree.leaves@.len();
        if anchors.roots@.len() == 0 {
            let why = (SyncRefusal::NoAnchorsYet { tip_height: anchors.tip_height }).text();
            &&& is_failed(r, why)
            &&& says(now.fatal, why)
            &&& now == (SelectDriver {
                fatal: now.fatal,
                anchors: None,
                ..before
            })
        } else {
            &&& r == (SelectStep::Root { count: local as u64 })
            &&& now.walk == Some(
                AnchorWalk { anchors, local: local as u64, next: local as u64 },
            )
            &&& now == (SelectDriver {
                stage: Stage::Walk,
                anchors: None,
                walk: now.walk,
                ..before
            })
        }
    }
    &&& before.free() && before.stage is Walk && before.anchor is None ==> {
        r == (SelectStep::Root { count: (before.walk->0).next }) && now
            == before
    }
    // The plan of the fewest notes, against the chosen anchor.
    &&& before.free() && before.stage is Walk && before.anchor is Some ==> planned(
        before,
        now,
        r,
        before.anchor->0,
    )
    // The witness, and the bundle.
    &&& before.free() && before.stage is Witness && before.material is None ==> {
        &&& is_request(r, before, before.plan->0, before.anchor->0)
        &&& now == before
    }
    &&& before.free() && before.stage is Witness && before.material is Some ==> {
        let m = before.material->0;
        let plan = before.plan->0;
        match r {
            SelectStep::Done(b) => {
                &&& b.valid(m.facts)
                &&& exists|ctx: BuildContext| #[trigger]
                    is_context(ctx, before) && assembled(
                    b,
                    plan,
                    before.spendables@,
                    ctx,
                    m,
                )
                &&& now.stage is Finished && now.fatal is None
                &&& now == (SelectDriver {
                    stage: Stage::Finished,
                    material: None,
                    ..before
                })
            },
            SelectStep::Failed(why) => {
                &&& says(now.fatal, why@)
                &&& exists|ctx: BuildContext, e: BuildRefusal| #[trigger]
                    is_context(ctx, before) && #[trigger] build_refused(
                        plan,
                        before.spendables@,
                        ctx,
                        m,
                        e,
                    ) && why@ == e.text()
                &&& now == (SelectDriver {
                    fatal: now.fatal,
                    material: None,
                    ..before
                })
            },
            _ => false,
        }
    }
    &&& before.free() && before.stage is Finished ==> is_failed(
        r,
        "select driver already completed"@,
    ) && now == before
}

impl SelectDriver {
    /// Nothing stands in the way of going on.
    pub open spec fn free(&self) -> bool {
        self.fatal is None && self.pending is None
    }

    /// Goes on until something is needed, done, or failed.
    pub fn step(&mut self) -> (r: SelectStep)
        requires
            old(self).wf(),
        ensures
            final(self).wf(),
            stepped(*old(self), *final(self), r),
    {
        match &self.fatal {
            Some(w) => {
                return SelectStep::Failed(w.clone());
            },
            None => {},
        }
        match self.pending {
            Some(p) => {
                return p.need_for();
            },
            None => {},
        }
        match self.stage {
            Stage::Spent => {
                match self.spent.want() {
                    Some((from, to)) => {
                        let p = Pending::Nullifiers { from, to };
                        self.pending = Some(p);
                        return p.need_for();
                    },
                    None => {},
                }
                match self.spent.set.covers_outputs(self.outputs) {
                    Ok(()) => {},
                    Err(e) => {
                        let why = unsafe_of(&e);
                        return self.fail(why);
                    },
                }
                self.stage = Stage::Coinbase;
                let p = Pending::Coinbase { from: self.coinbase.cursor, to: self.to };
                self.pending = Some(p);
                p.need_for()
            },
            Stage::Coinbase => {
                if self.coinbase_gap.is_none() {
                    match self.coinbase.want() {
                        Some((from, to)) => {
                            let p = Pending::Coinbase { from, to };
                            self.pending = Some(p);
                            return p.need_for();
                        },
                        None => {},
                    }
                }
                self.stage = Stage::Tree;
                self.select_inputs();
                if self.spendables.len() == 0 {
                    let context = self.shortfall_context();
                    let mut s: String = String::new();
                    s.append("no spendable notes: the scan of 0..=");
                    push_dec(&mut s, self.to);
                    s.append(" found nothing this wallet can spend (");
                    push_dec(&mut s, self.skipped_spent as u64);
                    s.append(
                        " note(s) it found are already spent). If you expect a received note, check that its address index is allocated here.",
                    );
                    s.append(context.as_str());
                    let ghost d = *self;
                    assert(s@ =~= nothing_spendable(d));
                    return self.fail(s);
                }
                let p = Pending::Leaves { from: self.tree.leaves.len() as u64 };
                self.pending = Some(p);
                p.need_for()
            },
            Stage::Tree => {
                let p = match self.tree.want_from() {
                    Some(from) => Pending::Leaves { from },
                    None => {
                        self.stage = Stage::Anchors;
                        Pending::Anchors
                    },
                };
                self.pending = Some(p);
                p.need_for()
            },
            Stage::Anchors => {
                let mut got: Option<Anchors> = None;
                std::mem::swap(&mut got, &mut self.anchors);
                match got {
                    None => {
                        self.pending = Some(Pending::Anchors);
                        Pending::Anchors.need_for()
                    },
                    Some(anchors) => {
                        let local = self.tree.leaves.len() as u64;
                        match AnchorWalk::new(anchors, local) {
                            Ok(walk) => {
                                self.walk = Some(walk);
                                self.stage = Stage::Walk;
                                SelectStep::Root { count: local }
                            },
                            Err(e) => {
                                let why = e.message();
                                self.fail(why)
                            },
                        }
                    },
                }
            },
            Stage::Walk => {
                match self.anchor {
                    None => {
                        let count: u64 = match &self.walk {
                            Some(walk) => walk.next,
                            None => 0,
                        };
                        SelectStep::Root { count }
                    },
                    Some(a) => self.plan_inputs(a),
                }
            },
            Stage::Witness => {
                let mut got: Option<BuildMaterial> = None;
                std::mem::swap(&mut got, &mut self.material);
                match (got, self.plan, self.anchor) {
                    (Some(m), Some(plan), Some(a)) => {
                        let ctx = BuildContext {
                            amount: self.amount,
                            anchor_count: a.count,
                            anchor_root: a.root,
                            anchor_tip_height: a.tip_height,
                            recipient_short: self.recipient_short.clone(),
                            output_range: self.outputs,
                            spent_covered: self.spent.set.covered,
                        };
                        assert(is_context(ctx, *old(self)));
                        match build_bundle(&plan, &self.spendables, ctx, m) {
                            Ok(b) => {
                                self.stage = Stage::Finished;
                                SelectStep::Done(b)
                            },
                            Err(e) => {
                                let why = e.message();
                                self.fail(why)
                            },
                        }
                    },
                    (_, Some(plan), Some(a)) => self.witness_request(plan, a),
                    _ => SelectStep::Failed("select driver already completed".to_owned()),
                }
            },
            Stage::Finished => SelectStep::Failed("select driver already completed".to_owned()),
        }
    }

    fn witness_request(&self, plan: InputPlan, anchor: VerifiedAnchor) -> (r: SelectStep)
        requires
            plans(plan, self.spendables@, self.amount, self.posted_fee + self.name_fee),
        ensures
            is_request(r, *self, plan, anchor),
    {
        let second = match plan.second {
            Some(j) => Some(self.spendables[j]),
            None => None,
        };
        SelectStep::Witness(
            WitnessRequest { plan, first: self.spendables[plan.first], second, anchor },
        )
    }

    fn plan_inputs(&mut self, a: VerifiedAnchor) -> (r: SelectStep)
        requires
            old(self).wf(),
            old(self).free(),
            old(self).stage is Walk,
            old(self).anchor == Some(a),
            old(self).plan is None,
        ensures
            final(self).wf(),
            planned(*old(self), *final(self), r, a),
    {
        let held = self.tree.leaves.len() as u64;
        self.events.push(
            SendStep::Tree {
                held,
                fetched: held - self.tree.start,
                anchor_count: a.count,
                anchor_root: hex32(&a.root),
                node_tip: a.tip_height,
                finalized: a.finalized_height,
                anchor_behind: a.leaves_behind_local,
            },
        );
        assert(self.events@.drop_last() =~= old(self).events@);
        match choose_inputs(&self.spendables, self.amount, self.posted_fee, self.name_fee) {
            Ok(plan) => {
                self.plan = Some(plan);
                self.stage = Stage::Witness;
                self.witness_request(plan, a)
            },
            Err(e) => {
                let mut why = e.message();
                match &e {
                    BuildRefusal::CannotCover { .. } => {
                        let context = self.shortfall_context();
                        why.append(context.as_str());
                    },
                    _ => {},
                }
                assert(why@ == plan_words(e, *old(self)));
                self.fail(why)
            },
        }
    }
}

/// What became of a request that was not answered.
pub open spec fn fault_text(p: Pending, fault: FetchFault) -> Seq<char> {
    match fault {
        FetchFault::Transport(why) => "GET "@ + p.path_text() + ": "@ + why@,
        FetchFault::Decode(why) => "GET "@ + p.path_text() + " did not decode: "@ + why@,
    }
}

/// A request that was not answered: fatal, but for the coinbase stream, where
/// it is a gap that the selection goes on with.
pub open spec fn unanswered(before: SelectDriver, now: SelectDriver, p: Pending, why: Seq<char>) -> bool {
    match p {
        Pending::Nullifiers { .. } => {
            &&& says(
                now.fatal,
                unreadable_text(why)
                    + " — refusing to select inputs this wallet may already have spent"@,
            )
            &&& now == (SelectDriver { pending: None, fatal: now.fatal, ..before })
        },
        Pending::Coinbase { .. } => {
            &&& says(now.coinbase_gap, coinbase_unreadable_text(why))
            &&& now == (SelectDriver { pending: None, coinbase_gap: now.coinbase_gap, ..before })
        },
        Pending::Leaves { .. } | Pending::Anchors => {
            &&& says(now.fatal, unreachable_text(why))
            &&& now == (SelectDriver { pending: None, fatal: now.fatal, ..before })
        },
    }
}

/// A page that does not belong to the stage.
pub open spec fn misplaced(before: SelectDriver, now: SelectDriver, why: Seq<char>) -> bool {
    &&& says(now.fatal, why)
    &&& now == (SelectDriver { pending: None, fatal: now.fatal, ..before })
}

/// A page taken in by the stage that it belongs to. A fault of the nullifier
/// or the leaf stream is fatal; one of the coinbase stream is a gap.
pub open spec fn answered(before: SelectDriver, now: SelectDriver, page: Page) -> bool {
    match page {
        Page::Nullifiers(chunk) => if before.stage is Spent {
            &&& exists|r: Result<(), SpentRefusal>| #[trigger]
                nullifiers_taken(before.spent, chunk, now.spent, r) && match r {
                    Ok(()) => now.fatal == before.fatal,
                    Err(e) => says(now.fatal, unsafe_text(e)),
                }
            &&& now == (SelectDriver {
                pending: None,
                spent: now.spent,
                fatal: now.fatal,
                ..before
            })
        } else {
            misplaced(before, now, "a nullifier page arrived outside the spent phase"@)
        },
        Page::Coinbase(chunk) => if before.stage is Coinbase {
            &&& exists|r: Result<(), CoinbaseRefusal>| #[trigger]
                coinbase_taken(before.coinbase, chunk, now.coinbase, r) && match r {
                    Ok(()) => now.coinbase_gap == before.coinbase_gap,
                    Err(e) => says(now.coinbase_gap, e.text()),
                }
            &&& now == (SelectDriver {
                pending: None,
                coinbase: now.coinbase,
                coinbase_gap: now.coinbase_gap,
                ..before
            })
        } else {
            misplaced(before, now, "a coinbase page arrived outside the coinbase phase"@)
        },
        Page::Leaves(chunk) => if before.stage is Tree {
            &&& exists|r: Result<(), SyncRefusal>| #[trigger]
                leaves_taken(before.tree, chunk, now.tree, r) && match r {
                    Ok(()) => now.fatal == before.fatal,
                    Err(e) => says(now.fatal, e.text()),
                }
            &&& now == (SelectDriver { pending: None, tree: now.tree, fatal: now.fatal, ..before })
        } else {
            misplaced(before, now, "a leaf chunk arrived outside the tree phase"@)
        },
        Page::Anchors(anchors) => if before.stage is Anchors {
            now == (SelectDriver { pending: None, anchors: Some(anchors), ..before })
        } else {
            misplaced(before, now, "an anchor set arrived outside the anchor phase"@)
        },
    }
}

impl SelectDriver {
    /// Supplies the answer to the outstanding request.
    pub fn supply(&mut self, response: Result<Page, FetchFault>)
        requires
            old(self).wf(),
        ensures
            final(self).wf(),
            match old(self).pending {
                None => misplaced(
                    *old(self),
                    *final(self),
                    "select driver received a response without requesting a path"@,
                ),
                Some(p) => match response {
                    Err(fault) => unanswered(*old(self), *final(self), p, fault_text(p, fault)),
                    Ok(page) => answered(*old(self), *final(self), page),
                },
            },
    {
        let p = match self.pending {
            Some(p) => p,
            None => {
                self.fatal = Some(
                    "select driver received a response without requesting a path".to_owned(),
                );
                return;
            },
        };
        self.pending = None;
        match response {
            Err(fault) => {
                let path = p.path_of();
                let mut why: String = String::new();
                why.append("GET ");
                why.append(path.as_str());
                match &fault {
                    FetchFault::Transport(w) => {
                        why.append(": ");
                        why.append(w.as_str());
                    },
                    FetchFault::Decode(w) => {
                        why.append(" did not decode: ");
                        why.append(w.as_str());
                    },
                }
                assert(why@ =~= fault_text(p, fault));
                self.supply_failed(p, why);
            },
            Ok(Page::Nullifiers(chunk)) => match self.stage {
                Stage::Spent => {
                    let taken = self.spent.supply(chunk);
                    assert(nullifiers_taken(old(self).spent, chunk, self.spent, taken));
                    match &taken {
                        Ok(()) => {},
                        Err(e) => {
                            self.fatal = Some(unsafe_of(e));
                        },
                    }
                },
                _ => {
                    self.fatal = Some(
                        "a nullifier page arrived outside the spent phase".to_owned(),
                    );
                },
            },
            Ok(Page::Coinbase(chunk)) => match self.stage {
                Stage::Coinbase => {
                    let taken = self.coinbase.supply(chunk);
                    assert(coinbase_taken(old(self).coinbase, chunk, self.coinbase, taken));
                    match &taken {
                        Ok(()) => {},
                        Err(e) => {
                            self.coinbase_gap = Some(e.message());
                        },
                    }
                },
                _ => {
                    self.fatal = Some(
                        "a coinbase page arrived outside the coinbase phase".to_owned(),
                    );
                },
            },
            Ok(Page::Leaves(chunk)) => match self.stage {
                Stage::Tree => {
                    let taken = self.tree.supply(chunk);
                    assert(leaves_taken(old(self).tree, chunk, self.tree, taken));
                    match &taken {
                        Ok(()) => {},
                        Err(e) => {
                            self.fatal = Some(e.message());
                        },
                    }
                },
                _ => {
                    self.fatal = Some("a leaf chunk arrived outside the tree phase".to_owned());
                },
            },
            Ok(Page::Anchors(anchors)) => match self.stage {
                Stage::Anchors => {
                    self.anchors = Some(anchors);
                },
                _ => {
                    self.fatal = Some(
                        "an anchor set arrived outside the anchor phase".to_owned(),
                    );
                },
            },
        }
    }

    fn supply_failed(&mut self, p: Pending, why: String)
        requires
            old(self).wf(),
            old(self).pending is None,
            p is Coinbase ==> old(self).stage is Coinbase,
        ensures
            final(self).wf(),
            unanswered(*old(self), *final(self), p, why@),
    {
        match p {
            Pending::Nullifiers { .. } => {
                let e = SpentRefusal::Endpoint { why };
                self.fatal = Some(unsafe_of(&e));
            },
            Pending::Coinbase { .. } => {
                let e = CoinbaseRefusal::Endpoint { why };
                self.coinbase_gap = Some(e.message());
            },
            Pending::Leaves { .. } | Pending::Anchors => {
                let e = SyncRefusal::Endpoint { why };
                self.fatal = Some(e.message());
            },
        }
    }

    /// Supplies the root that the walk asked for.
    pub fn supply_root(&mut self, root: &[u8; 32])
        requires
            old(self).wf(),
        ensures
            final(self).wf(),
            if old(self).stage is Walk && old(self).anchor is None {
                let w = old(self).walk->0;
                if holds32(w.anchors.roots@, root@) {
                    *final(self) == (SelectDriver {
                        anchor: Some(w.anchor(*root)),
                        ..*old(self)
                    })
                } else if w.next == 0 {
                    &&& says(final(self).fatal, w.exhausted().text())
                    &&& *final(self) == (SelectDriver { fatal: final(self).fatal, ..*old(self) })
                } else {
                    &&& final(self).walk == Some(
                        AnchorWalk { next: (w.next - 1) as u64, ..w },
                    )
                    &&& *final(self) == (SelectDriver { walk: final(self).walk, ..*old(self) })
                }
            } else {
                &&& says(final(self).fatal, "a root arrived outside the anchor walk"@)
                &&& *final(self) == (SelectDriver { fatal: final(self).fatal, ..*old(self) })
            },
    {
        let mut found: Option<Result<VerifiedAnchor, SyncRefusal>> = None;
        let mut taken: bool = false;
        match self.stage {
            Stage::Walk => {
                if self.anchor.is_none() {
                    let mut walk: Option<AnchorWalk> = None;
                    std::mem::swap(&mut walk, &mut self.walk);
                    match walk {
                        Some(mut w) => {
                            found = w.supply(root);
                            self.walk = Some(w);
                            taken = true;
                        },
                        None => {},
                    }
                }
            },
            _ => {},
        }
        if !taken {
            self.fatal = Some("a root arrived outside the anchor walk".to_owned());
            return;
        }
        match found {
            Some(Ok(a)) => {
                self.anchor = Some(a);
            },
            Some(Err(e)) => {
                self.fatal = Some(e.message());
            },
            None => {},
        }
    }

    /// Supplies what the chosen notes' bundle is built from.
    pub fn supply_witness(&mut self, material: BuildMaterial)
        requires
            old(self).wf(),
        ensures
            final(self).wf(),
            if old(self).stage is Witness {
                *final(self) == (SelectDriver { material: Some(material), ..*old(self) })
            } else {
                &&& says(final(self).fatal, "a witness arrived outside the witness phase"@)
                &&& *final(self) == (SelectDriver { fatal: final(self).fatal, ..*old(self) })
            },
    {
        match self.stage {
            Stage::Witness => {
                self.material = Some(material);
            },
            _ => {
                self.fatal = Some("a witness arrived outside the witness phase".to_owned());
            },
        }
    }
}

/// An input that stands for a transaction output of one of the scanned
/// addresses, whose nullifier the chain has not published.
pub open spec fn is_unspent_output(d: SelectDriver, input: Spendable) -> bool {
    exists|a: int, n: LocatedNote|
        0 <= a < d.scanned@.len() && (#[trigger] d.scanned@[a]).notes@.contains(n)
            && d.spent.set.height(n.nullifier@) is None && input == #[trigger] as_input(
            d.scanned@[a].div_index,
            n,
        )
}

/// An input that stands for a note that this wallet mined: matured, unspent,
/// and at heights that the nullifier stream covers to the end.
pub open spec fn is_checked_coinbase(d: SelectDriver, input: Spendable) -> bool {
    exists|n: MinedNote| #[trigger]
        mined_all(d).contains(n) && n.spendable() && checked(d.spent.set.covered, d.to, n) && input
            == mined_input(n)
}

/// Nothing that the chain has consumed and nothing that has not matured is
/// ever selected: every input is a transaction output whose nullifier was not
/// published, or a matured, unspent and fully checked mined note.
pub proof fn law_selected_inputs_are_spendable(d: SelectDriver)
    ensures
        forall|i: int|
            0 <= i < selected_inputs(d).len() ==> is_unspent_output(d, #[trigger] selected_inputs(d)[i])
                || is_checked_coinbase(d, selected_inputs(d)[i]),
{
    let txs = tx_inputs(d.scanned@, d.spent.set);
    assert forall|i: int| 0 <= i < selected_inputs(d).len() implies is_unspent_output(
        d,
        #[trigger] selected_inputs(d)[i],
    ) || is_checked_coinbase(d, selected_inputs(d)[i]) by {
        let input = selected_inputs(d)[i];
        if i < txs.len() {
            assert(input == txs[i]);
            lemma_tx_input_origin(d.scanned@, d.spent.set, i);
            let (a, n) = choose|a: int, n: LocatedNote|
                0 <= a < d.scanned@.len() && (#[trigger] d.scanned@[a]).notes@.contains(n)
                    && d.spent.set.height(n.nullifier@) is None && txs[i] == #[trigger] as_input(
                    d.scanned@[a].div_index,
                    n,
                );
            assert(d.scanned@[a].notes@.contains(n) && input == as_input(
                d.scanned@[a].div_index,
                n,
            ));
        } else {
            let ready = mined_ready(d);
            lemma_mined_input_origin(ready, d.spent.set.covered, d.to, i - txs.len());
            let k = choose|k: int|
                0 <= k < ready.len() && checked(d.spent.set.covered, d.to, #[trigger] ready[k])
                    && mined_inputs(ready, d.spent.set.covered, d.to)[i - txs.len()] == mined_input(
                    ready[k],
                );
            crate::coinbase::law_mined_notes_are_parted(mined_all(d));
            crate::coinbase::lemma_in_state_member(mined_all(d), MinedState::Spendable, k);
            assert(mined_all(d).contains(ready[k]));
        }
    }
}

/// How many transaction outputs the scans found.
pub open spec fn outputs_found(scanned: Seq<ScannedAddress>) -> nat
    decreases scanned.len(),
{
    if scanned.len() == 0 {
        0
    } else {
        outputs_found(scanned.drop_last()) + scanned.last().notes@.len()
    }
}

/// Whether one of the inputs spends this note from this address.
pub open spec fn is_selected(
    inputs: Seq<Spendable>,
    div_index: u64,
    value: u64,
    rho: [u64; 4],
    rseed: [u64; 4],
) -> bool {
    exists|i: int|
        {
            &&& 0 <= i < inputs.len()
            &&& (#[trigger] inputs[i]).div_index == div_index
            &&& inputs[i].value == value
            &&& inputs[i].rho == rho
            &&& inputs[i].rseed == rseed
        }
}

proof fn lemma_tx_inputs_all(scanned: Seq<ScannedAddress>, set: SpentSet)
    ensures
        tx_inputs(scanned, set).len() + tx_spent(scanned, set) == outputs_found(scanned),
        forall|a: int, k: int|
            0 <= a < scanned.len() && 0 <= k < scanned[a].notes@.len() && set.height(
                (#[trigger] scanned[a].notes@[k]).nullifier@,
            ) is None ==> is_selected(
                tx_inputs(scanned, set),
                scanned[a].div_index,
                scanned[a].notes@[k].note.value,
                scanned[a].notes@[k].note.rho,
                scanned[a].notes@[k].note.rseed,
            ),
    decreases scanned.len(),
{
    if scanned.len() > 0 {
        let front = scanned.drop_last();
        let last = scanned.last();
        lemma_tx_inputs_all(front, set);
        crate::spent::law_subtraction_parts_the_notes(last.notes@, set);
        let before = tx_inputs(front, set);
        let own = as_inputs(last.div_index, unspent(last.notes@, set));
        let all = tx_inputs(scanned, set);
        assert forall|a: int, k: int|
            0 <= a < scanned.len() && 0 <= k < scanned[a].notes@.len() && set.height(
                (#[trigger] scanned[a].notes@[k]).nullifier@,
            ) is None implies is_selected(
            all,
            scanned[a].div_index,
            scanned[a].notes@[k].note.value,
            scanned[a].notes@[k].note.rho,
            scanned[a].notes@[k].note.rseed,
        ) by {
            let n = scanned[a].notes@[k];
            if a < front.len() {
                assert(front[a].notes@[k] == n);
                let i = choose|i: int|
                    {
                        &&& 0 <= i < before.len()
                        &&& (#[trigger] before[i]).div_index == scanned[a].div_index
                        &&& before[i].value == n.note.value
                        &&& before[i].rho == n.note.rho
                        &&& before[i].rseed == n.note.rseed
                    };
                assert(all[i] == before[i]);
            } else {
                assert(last.notes@.contains(n));
                assert(unspent(last.notes@, set).contains(n));
                let i = choose|i: int|
                    0 <= i < unspent(last.notes@, set).len() && unspent(last.notes@, set)[i] == n;
                assert(all[before.len() + i] == own[i]);
            }
        }
    }
}

proof fn lemma_mined_inputs_all(
    notes: Seq<MinedNote>,
    covered: Option<(u64, u64)>,
    to: u64,
    n: MinedNote,
)
    requires
        notes.contains(n),
        checked(covered, to, n),
    ensures
        mined_inputs(notes, covered, to).contains(mined_input(n)),
    decreases notes.len(),
{
    let front = notes.drop_last();
    let s = mined_inputs(front, covered, to);
    let all = mined_inputs(notes, covered, to);
    let k = choose|k: int| 0 <= k < notes.len() && notes[k] == n;
    if k < front.len() {
        assert(front[k] == n);
        lemma_mined_inputs_all(front, covered, to, n);
        let i = choose|i: int| 0 <= i < s.len() && s[i] == mined_input(n);
        assert(all[i] == mined_input(n));
    } else {
        assert(all[s.len() as int] == mined_input(n));
    }
}

/// Nothing that could be spent is left out. Every output that a scan found and
/// whose nullifier was not published is an input of its own address; so is every
/// matured, unspent mined note that the nullifier stream covers from its block to
/// the end, where the coinbase was seen. The outputs that are no inputs are those
/// that are counted as spent.
pub proof fn law_every_spendable_note_is_selected(d: SelectDriver)
    ensures
        forall|a: int, k: int|
            0 <= a < d.scanned@.len() && 0 <= k < d.scanned@[a].notes@.len() && d.spent.set.height(
                (#[trigger] d.scanned@[a].notes@[k]).nullifier@,
            ) is None ==> is_selected(
                selected_inputs(d),
                d.scanned@[a].div_index,
                d.scanned@[a].notes@[k].note.value,
                d.scanned@[a].notes@[k].note.rho,
                d.scanned@[a].notes@[k].note.rseed,
            ),
        d.coinbase_gap is None && d.coinbase.chain.covered is Some ==> forall|n: MinedNote| #[trigger]
            mined_all(d).contains(n) && n.spent_height is None && n.maturity is Matured
                && d.spent.set.covered is Some && (d.spent.set.covered->0).0 <= n.minted_height
                && d.to <= (d.spent.set.covered->0).1 ==> is_selected(
                selected_inputs(d),
                n.div_index,
                n.note.value,
                n.note.rho,
                n.note.rseed,
            ),
        selected_inputs(d).len() + tx_spent(d.scanned@, d.spent.set) == outputs_found(d.scanned@)
            + selected_mined(d),
        forall|i: int|
            0 <= i < d.scanned@.len() ==> keys_of(d.scanned@)[i] == (
                (#[trigger] d.scanned@[i]).div_index,
                d.scanned@[i].rkm,
            ),
        keys_of(d.scanned@).len() == d.scanned@.len(),
{
    let set = d.spent.set;
    let txs = tx_inputs(d.scanned@, set);
    let all = selected_inputs(d);
    lemma_tx_inputs_all(d.scanned@, set);
    assert forall|a: int, k: int|
        0 <= a < d.scanned@.len() && 0 <= k < d.scanned@[a].notes@.len() && set.height(
            (#[trigger] d.scanned@[a].notes@[k]).nullifier@,
        ) is None implies is_selected(
        all,
        d.scanned@[a].div_index,
        d.scanned@[a].notes@[k].note.value,
        d.scanned@[a].notes@[k].note.rho,
        d.scanned@[a].notes@[k].note.rseed,
    ) by {
        let n = d.scanned@[a].notes@[k];
        let i = choose|i: int|
            {
                &&& 0 <= i < txs.len()
                &&& (#[trigger] txs[i]).div_index == d.scanned@[a].div_index
                &&& txs[i].value == n.note.value
                &&& txs[i].rho == n.note.rho
                &&& txs[i].rseed == n.note.rseed
            };
        assert(all[i] == txs[i]);
    }
    if sees_mined(d) {
        let mined = mined_inputs(mined_ready(d), set.covered, d.to);
        assert forall|n: MinedNote| #[trigger]
            mined_all(d).contains(n) && n.spent_height is None && n.maturity is Matured
                && set.covered is Some && (set.covered->0).0 <= n.minted_height && d.to <= (
            set.covered->0).1 implies is_selected(
            all,
            n.div_index,
            n.note.value,
            n.note.rho,
            n.note.rseed,
        ) by {
            crate::coinbase::lemma_in_state_all(mined_all(d), n);
            lemma_mined_inputs_all(mined_ready(d), set.covered, d.to, n);
            let i = choose|i: int| 0 <= i < mined.len() && mined[i] == mined_input(n);
            assert(all[txs.len() + i] == mined[i]);
        }
    }
}

proof fn lemma_tx_input_origin(scanned: Seq<ScannedAddress>, set: SpentSet, i: int)
    requires
        0 <= i < tx_inputs(scanned, set).len(),
    ensures
        exists|a: int, n: LocatedNote|
            0 <= a < scanned.len() && (#[trigger] scanned[a]).notes@.contains(n) && set.height(
                n.nullifier@,
            ) is None && tx_inputs(scanned, set)[i] == #[trigger] as_input(scanned[a].div_index, n),
    decreases scanned.len(),
{
    if scanned.len() > 0 {
        let front = scanned.drop_last();
        let last = scanned.last();
        let m = tx_inputs(front, set).len();
        if i < m {
            lemma_tx_input_origin(front, set, i);
            let (a, n) = choose|a: int, n: LocatedNote|
                0 <= a < front.len() && (#[trigger] front[a]).notes@.contains(n) && set.height(
                    n.nullifier@,
                ) is None && tx_inputs(front, set)[i] == #[trigger] as_input(front[a].div_index, n);
            assert(scanned[a] == front[a]);
            assert(scanned[a].notes@.contains(n) && tx_inputs(scanned, set)[i] == as_input(
                scanned[a].div_index,
                n,
            ));
        } else {
            let n = unspent(last.notes@, set)[i - m];
            crate::spent::law_subtraction_parts_the_notes(last.notes@, set);
            assert(unspent(last.notes@, set).contains(n));
            assert(scanned[scanned.len() - 1] == last);
            assert(tx_inputs(scanned, set)[i] == as_input(last.div_index, n));
        }
    }
}

proof fn lemma_mined_input_origin(
    notes: Seq<MinedNote>,
    covered: Option<(u64, u64)>,
    to: u64,
    i: int,
)
    requires
        0 <= i < mined_inputs(notes, covered, to).len(),
    ensures
        exists|k: int|
            0 <= k < notes.len() && checked(covered, to, #[trigger] notes[k]) && mined_inputs(
                notes,
                covered,
                to,
            )[i] == mined_input(notes[k]),
    decreases notes.len(),
{
    if notes.len() > 0 {
        let front = notes.drop_last();
        let m = mined_inputs(front, covered, to).len();
        if i < m {
            lemma_mined_input_origin(front, covered, to, i);
            let k = choose|k: int|
                0 <= k < front.len() && checked(covered, to, #[trigger] front[k]) && mined_inputs(
                    front,
                    covered,
                    to,
                )[i] == mined_input(front[k]);
            assert(notes[k] == front[k]);
        } else {
            assert(notes[notes.len() - 1] == notes.last());
        }
    }
}

/// Whatever becomes of the coinbase stream, a send goes on: a request for it
/// that is not answered, and a page of it that is refused, leave the driver
/// without a failure, and with the reason why mined coins were not seen.
pub proof fn law_coinbase_faults_never_stop_a_send(
    before: SelectDriver,
    now: SelectDriver,
    from: u64,
    to: u64,
    why: Seq<char>,
    chunk: CoinbaseChunk,
)
    ensures
        unanswered(before, now, Pending::Coinbase { from, to }, why) ==> now.fatal == before.fatal
            && now.coinbase_gap is Some,
        before.stage is Coinbase && answered(before, now, Page::Coinbase(chunk)) ==> now.fatal
            == before.fatal,
{
}

/// A send that could not see the coinbase stream says so, and goes on with what
/// it has: behind a request for the stream that failed, the next step announces
/// that the inputs are transactions only, and why, before it counts them; it
/// goes on to the tree where one of them can be spent, and where none can, the
/// refusal says the same.
pub proof fn law_a_send_without_coinbase_says_so(
    before: SelectDriver,
    mid: SelectDriver,
    now: SelectDriver,
    from: u64,
    to: u64,
    fault: FetchFault,
    r: SelectStep,
)
    requires
        before.wf(),
        before.fatal is None,
        before.pending == Some(Pending::Coinbase { from, to }),
        unanswered(
            before,
            mid,
            Pending::Coinbase { from, to },
            fault_text(Pending::Coinbase { from, to }, fault),
        ),
        stepped(mid, now, r),
    ensures
        ({
            let n = before.events@.len() as int;
            &&& now.events@.len() == n + 2
            &&& now.events@.take(n) == before.events@
            &&& now.events@[n] matches SendStep::CoinbaseUnavailable { why } && holds_text(
                why@,
                "TRANSACTIONS ONLY"@,
            ) && holds_text(why@, fault_text(Pending::Coinbase { from, to }, fault))
            &&& now.events@[n + 1] is Selected
        }),
        now.spendables@ == tx_inputs(before.scanned@, before.spent.set),
        if tx_inputs(before.scanned@, before.spent.set).len() > 0 {
            r matches SelectStep::Need { endpoint, path } && endpoint is Node && path@
                == "/v1/tree/leaves?from="@ + dec(before.tree.leaves@.len() as u64 as nat)
        } else {
            r matches SelectStep::Failed(m) && holds_text(m@, "TRANSACTIONS ONLY"@)
        },
{
    let p = Pending::Coinbase { from, to };
    let fault = fault_text(p, fault);
    let gap = coinbase_unreadable_text(fault);
    let said = degradation(gap);
    let opening = "coinbase was NOT visible to this send — its inputs are "@;
    lemma_stands(
        opening,
        TRANSACTIONS_ONLY@,
        " ("@ + gap
            + "). If this wallet's rkm mines, what it earned was not among the inputs considered."@,
    );
    assert(said =~= opening + TRANSACTIONS_ONLY@ + (" ("@ + gap
        + "). If this wallet's rkm mines, what it earned was not among the inputs considered."@));
    let cause = "). This scan cannot see mined coins — if this wallet mines, its balance below is "@
        + TRANSACTIONS_ONLY@
        + "). If this wallet's rkm mines, what it earned was not among the inputs considered."@;
    let ahead = opening + TRANSACTIONS_ONLY@ + " ("@ + "the coinbase stream could not be read ("@;
    lemma_stands(ahead, fault, cause);
    assert(said =~= ahead + fault + cause);
    assert(mid.events@ == before.events@);
    if tx_inputs(before.scanned@, before.spent.set).len() == 0 {
        let m = nothing_spendable(now);
        let front = "no spendable notes: the scan of 0..="@ + dec(now.to as nat)
            + " found nothing this wallet can spend ("@ + dec(now.skipped_spent as nat)
            + " note(s) it found are already spent). If you expect a received note, check that its address index is allocated here."@
            + " 🔴 "@ + opening;
        let behind = " ("@ + gap
            + "). If this wallet's rkm mines, what it earned was not among the inputs considered."@
            + " So this refusal is NOT evidence that the balance is too low: a node that serves GET /v1/coinbase may answer it differently."@;
        lemma_stands(front, TRANSACTIONS_ONLY@, behind);
        assert(m =~= front + TRANSACTIONS_ONLY@ + behind);
    }
}

/// What stands between two texts stands in the whole.
proof fn lemma_stands(a: Seq<char>, p: Seq<char>, b: Seq<char>)
    ensures
        holds_text(a + p + b, p),
{
    assert((a + p + b).subrange(a.len() as int, a.len() + p.len() as int) =~= p);
    assert(begins_at(a + p + b, a.len() as int, p));
}

/// A bundle is handed out only for the notes that were asked for: whatever
/// material was supplied, the request `w` that a step makes where the driver
/// stands names the notes whose values and secrets are the real inputs, they are
/// the fewest that cover the amount and the fees, and the bundle pays the amount
/// out of them to the recipient's key and what is left to this wallet's own,
/// against the anchor that was found.
pub proof fn law_the_bundle_spends_the_requested_notes(
    before: SelectDriver,
    now: SelectDriver,
    w: WitnessRequest,
    b: WitnessBundle,
)
    requires
        before.wf(),
        stepped(before, now, SelectStep::Done(b)),
        is_request(SelectStep::Witness(w), before, before.plan->0, before.anchor->0),
    ensures
        is_spent_by(w.first, b.inputs@[0]),
        w.second matches Some(n) ==> is_spent_by(n, b.inputs@[1]),
        w.second is None ==> b.inputs@[1].value == 0,
        b.real_inputs == 2 <==> w.second is Some,
        plans(w.plan, before.spendables@, before.amount, before.posted_fee + before.name_fee),
        before.spendables@.contains(w.first),
        w.second matches Some(n) ==> before.spendables@.contains(n),
        b.amount == before.amount,
        b.fee == before.posted_fee + before.name_fee,
        b.change_value == w.plan.change,
        b.outputs@[0].value == before.amount && b.outputs@[0].rkm == (
        before.material->0).recipient_rkm,
        b.outputs@[1].value == w.plan.change && b.outputs@[1].rkm == (before.material->0).change_rkm,
        b.outputs@[0].value + b.outputs@[1].value + before.posted_fee + before.name_fee
            == w.first.value + (match w.second {
            Some(n) => n.value as int,
            None => 0,
        }),
        b.total_in() == b.total_out(),
        lane_bytes(b.anchor@) == w.anchor.root@,
{
    let plan = before.plan->0;
    let m = before.material->0;
    let notes = before.spendables@;
    let ctx = choose|ctx: BuildContext| #[trigger]
        is_context(ctx, before) && assembled(b, plan, notes, ctx, m);
    law_planned_bundle_spends_its_notes(
        plan,
        notes,
        ctx,
        m,
        before.posted_fee + before.name_fee,
        b,
    );
    assert(notes[plan.first as int] == w.first);
    if let Some(j) = plan.second {
        assert(notes[j as int] == w.second->0);
    }
}

/// A send never goes on past the nullifier stream: a request for it that is
/// not answered, and a page of it that is refused, are fatal.
pub proof fn law_nullifier_faults_always_stop_a_send(
    before: SelectDriver,
    now: SelectDriver,
    from: u64,
    to: u64,
    why: Seq<char>,
    chunk: NullifierChunk,
)
    ensures
        unanswered(before, now, Pending::Nullifiers { from, to }, why) ==> now.fatal is Some,
        before.stage is Spent && answered(before, now, Page::Nullifiers(chunk)) ==> now.fatal is Some
            || exists|r: Result<(), SpentRefusal>| #[trigger]
            nullifiers_taken(before.spent, chunk, now.spent, r) && r is Ok,
{
}

/// A spend is kept from being built exactly where one of its scans ended in a
/// partial verdict, whichever it is.
pub proof fn law_a_partial_scan_stops_a_send(scanned: Seq<ScannedAddress>)
    ensures
        verdict_fault(scanned) is None <==> forall|i: int|
            0 <= i < scanned.len() ==> !((#[trigger] scanned[i]).verdict is Partial),
    decreases scanned.len(),
{
    if scanned.len() > 0 {
        let rest = scanned.skip(1);
        law_a_partial_scan_stops_a_send(rest);
        if scanned[0].verdict is Partial {
            assert(verdict_fault(scanned) is Some);
        } else if verdict_fault(rest) is None {
            assert forall|i: int| 0 <= i < scanned.len() implies !((
            #[trigger] scanned[i]).verdict is Partial) by {
                if i > 0 {
                    assert(rest[i - 1] == scanned[i]);
                }
            }
        } else {
            let k = choose|k: int|
                0 <= k < rest.len() && (#[trigger] rest[k]).verdict is Partial;
            assert(scanned[k + 1] == rest[k]);
        }
    }
}

/// The place of a stage in a selection.
pub open spec fn stage_place(stage: Stage) -> int {
    match stage {
        Stage::Spent => 0,
        Stage::Coinbase => 1,
        Stage::Tree => 2,
        Stage::Anchors => 3,
        Stage::Walk => 4,
        Stage::Witness => 5,
        Stage::Finished => 6,
    }
}

/// The stages come in their order, and none is passed over. The nullifiers are
/// left only once they were read to the end and over every height that a scan's
/// outputs came from; the coinbase only once it was read to the end or failed; the
/// tree only once it is as long as the node says; and a bundle is made only of
/// what was planned and witnessed. While a request is out, and after a failure,
/// nothing moves.
pub proof fn law_stages_come_in_order(before: SelectDriver, now: SelectDriver, r: SelectStep)
    requires
        before.wf(),
        before.outputs == widest(served_ranges(before.scanned@)),
        stepped(before, now, r),
    ensures
        before.fatal is Some || before.pending is Some ==> now == before,
        stage_place(now.stage) == stage_place(before.stage) || stage_place(now.stage)
            == stage_place(before.stage) + 1,
        before.stage is Spent && now.stage is Coinbase ==> before.spent.done && forall|i: int|
            0 <= i < before.scanned@.len() && (#[trigger] before.scanned@[i]).served is Some ==> {
                let covered = before.spent.set.covered;
                let served = before.scanned@[i].served->0;
                covered is Some && (covered->0).0 <= served.0 && served.1 <= (covered->0).1
            },
        before.stage is Coinbase && now.stage is Tree ==> before.coinbase.done
            || before.coinbase_gap is Some,
        before.stage is Tree && now.stage is Anchors ==> before.tree.done,
        r is Done ==> before.stage is Witness && now.stage is Finished && before.plan is Some
            && before.material is Some && before.anchor is Some,
        now.scanned == before.scanned && now.amount == before.amount,
        now.posted_fee == before.posted_fee && now.name_fee == before.name_fee,
        now.spent == before.spent && now.coinbase == before.coinbase && now.tree == before.tree,
{
    if before.free() && before.stage is Spent && now.stage is Coinbase {
        let covered = before.spent.set.covered;
        let ranges = served_ranges(before.scanned@);
        crate::paging::lemma_widest_covered(covered, ranges);
        assert forall|i: int|
            0 <= i < before.scanned@.len() && (#[trigger] before.scanned@[i]).served is Some implies {
            let served = before.scanned@[i].served->0;
            covered is Some && (covered->0).0 <= served.0 && served.1 <= (covered->0).1
        } by {
            assert(ranges[i] == before.scanned@[i].served);
            assert(contains_range(covered, ranges[i]->0));
        }
    }
}

/// What is asked for, and where. The nullifiers and the coinbase are asked of the
/// scan endpoint, from where they were read to and up to the height of the scans;
/// the leaves, from behind those held, and the anchors are asked of the node.
pub proof fn law_each_stream_is_asked_where_it_ends(
    before: SelectDriver,
    now: SelectDriver,
    r: SelectStep,
)
    requires
        before.wf(),
        before.free(),
        stepped(before, now, r),
        r is Need,
    ensures
        r matches SelectStep::Need { endpoint, path } && match now.stage {
            Stage::Spent => endpoint is Scan && path@ == "/v1/nullifiers?from="@ + dec(
                before.spent.cursor as nat,
            ) + "&to="@ + dec(before.to as nat),
            Stage::Coinbase => endpoint is Scan && path@ == "/v1/coinbase?from="@ + dec(
                before.coinbase.cursor as nat,
            ) + "&to="@ + dec(before.to as nat),
            Stage::Tree => endpoint is Node && path@ == "/v1/tree/leaves?from="@ + dec(
                before.tree.leaves@.len() as u64 as nat,
            ),
            Stage::Anchors => endpoint is Node && path@ == "/v1/anchors"@,
            _ => false,
        },
{
}

/// Nothing is said to be missing of the mined coins exactly where the coinbase was
/// read without a fault from the first height to the scans' last, and every matured
/// mined note could be checked against the nullifiers.
pub proof fn law_a_gap_is_told_of(d: SelectDriver)
    ensures
        selected_gap(d) is None <==> {
            &&& d.coinbase_gap is None
            &&& d.coinbase.chain.covered matches Some((from, to)) && from == 0 && to >= d.to
            &&& forall|k: int|
                0 <= k < mined_ready(d).len() ==> checked(
                    d.spent.set.covered,
                    d.to,
                    #[trigger] mined_ready(d)[k],
                )
        },
{
    if sees_mined(d) {
        lemma_all_checked(mined_ready(d), d.spent.set.covered, d.to);
        lemma_mined_inputs_len(mined_ready(d), d.spent.set.covered, d.to);
    }
}

proof fn lemma_all_checked(notes: Seq<MinedNote>, covered: Option<(u64, u64)>, to: u64)
    ensures
        mined_inputs(notes, covered, to).len() == notes.len() <==> forall|k: int|
            0 <= k < notes.len() ==> checked(covered, to, #[trigger] notes[k]),
    decreases notes.len(),
{
    if notes.len() > 0 {
        let front = notes.drop_last();
        lemma_all_checked(front, covered, to);
        lemma_mined_inputs_len(front, covered, to);
        if forall|k: int| 0 <= k < front.len() ==> checked(covered, to, #[trigger] front[k]) {
            assert forall|k: int| 0 <= k < notes.len() - 1 implies checked(
                covered,
                to,
                #[trigger] notes[k],
            ) by {
                assert(front[k] == notes[k]);
            }
        } else {
            let k = choose|k: int|
                0 <= k < front.len() && !checked(covered, to, #[trigger] front[k]);
            assert(notes[k] == front[k]);
        }
        assert(notes[notes.len() - 1] == notes.last());
    }
}

/// A shortfall says what could not be seen or is not available yet: the reason why
/// mined coins were not seen, or what the maturing ones are worth, when the first of
/// them matures and as of which tip; where nothing is missing it says nothing.
pub proof fn law_a_shortfall_names_what_is_missing(gap: Option<Seq<char>>, mined: Option<MinedReport>)
    ensures
        gap matches Some(why) ==> holds_text(shortfall_text(gap, mined), why),
        gap is None && mined is Some && (mined->0).maturing@.len() > 0 ==> {
            let m = mined->0;
            &&& holds_text(
                shortfall_text(gap, mined),
                dec(mined_value(m.maturing@)) + " bessel of mined coins that are not spendable yet"@,
            )
            &&& holds_text(
                shortfall_text(gap, mined),
                "the earliest matures at height "@ + dec(earliest_leaf(m.maturing@)->0 as nat),
            )
            &&& holds_text(shortfall_text(gap, mined), "as of tip "@ + dec(m.as_of as nat))
        },
        gap is None && (mined is None || (mined->0).maturing@.len() == 0) ==> shortfall_text(
            gap,
            mined,
        ).len() == 0,
{
    let t = shortfall_text(gap, mined);
    match gap {
        Some(why) => {
            let opening = "coinbase was NOT visible to this send — its inputs are "@;
            let close = "). If this wallet's rkm mines, what it earned was not among the inputs considered."@;
            let last = " So this refusal is NOT evidence that the balance is too low: a node that serves GET /v1/coinbase may answer it differently."@;
            let front = " 🔴 "@ + opening + TRANSACTIONS_ONLY@ + " ("@;
            assert(t =~= front + why + (close + last));
            lemma_stands(front, why, close + last);
        },
        None => {
            if mined is Some && (mined->0).maturing@.len() > 0 {
                let m = mined->0;
                let value = dec(mined_value(m.maturing@));
                let height = dec(earliest_leaf(m.maturing@)->0 as nat);
                let tip = dec(m.as_of as nat);
                let a = " Coinbase WAS visible, and this wallet holds "@;
                let b = " bessel of mined coins that are not spendable yet — the earliest matures at height "@;
                let c = ", stated as of tip "@;
                let d = ". You have it; it is not available at this height."@;
                let b0 = " bessel of mined coins that are not spendable yet"@;
                let b1 = "the earliest matures at height "@;
                let c1 = "as of tip "@;
                reveal_strlit(" bessel of mined coins that are not spendable yet — the earliest matures at height ");
                reveal_strlit(" bessel of mined coins that are not spendable yet");
                reveal_strlit("the earliest matures at height ");
                reveal_strlit(", stated as of tip ");
                reveal_strlit("as of tip ");
                assert(t =~= a + value + b + height + c + tip + d);
                let b2 = b.skip(b0.len() as int);
                assert(b =~= b0 + b2);
                assert(t =~= a + (value + b0) + (b2 + height + c + tip + d));
                lemma_stands(a, value + b0, b2 + height + c + tip + d);
                let b3 = b.take(b.len() - b1.len());
                assert(b =~= b3 + b1);
                assert(t =~= (a + value + b3) + (b1 + height) + (c + tip + d));
                lemma_stands(a + value + b3, b1 + height, c + tip + d);
                let c0 = c.take(c.len() - c1.len());
                assert(c =~= c0 + c1);
                assert(t =~= (a + value + b + height + c0) + (c1 + tip) + d);
                lemma_stands(a + value + b + height + c0, c1 + tip, d);
            }
        },
    }
}

/// Every note that was found is accounted for: it is an input, or counted as spent,
/// or it is mined and not mature yet, or mined and could not be checked.
pub proof fn law_every_note_is_accounted_for(d: SelectDriver)
    ensures
        sees_mined(d) ==> selected_inputs(d).len() + selected_skipped(d) + in_state(
            mined_all(d),
            MinedState::Maturing,
        ).len() + unchecked_count(d) == outputs_found(d.scanned@) + mined_all(d).len(),
        !sees_mined(d) ==> selected_inputs(d).len() + selected_skipped(d) == outputs_found(
            d.scanned@,
        ),
        0 <= unchecked_count(d) <= mined_all(d).len(),
{
    lemma_tx_inputs_all(d.scanned@, d.spent.set);
    crate::coinbase::law_mined_notes_are_parted(mined_all(d));
    lemma_mined_inputs_len(mined_ready(d), d.spent.set.covered, d.to);
}

} // verus!
