//! Sends on an Annulet net: which notes a payment spends, in which rounds, and
//! what it pays in fees.
//!
//! A fee is an asset-0 note of exactly the tariff, spent whole. Where the
//! wallet holds none, one is split off a larger asset-0 note first. Where no
//! single note covers the amount, the fewest largest notes that do are merged,
//! the two smallest first, until two of them pay.
use crate::annulet::AnnuletRefusal;
use crate::order::order_of;
#[allow(unused_imports)]
use crate::order::{in_order, lemma_order, order};
#[allow(unused_imports)]
use crate::text::dec;
use crate::text::{push_dec, push_dec_wide};
use vstd::prelude::*;

verus! {

/// The shapes of an Annulet transaction.
#[derive(Clone, Copy, Debug, PartialEq, Eq, Structural)]
pub enum L2ShapeTag {
    S,
    P,
    R,
}

/// The fee tiers a send pays, from the node.
#[derive(Clone, Copy, Debug, PartialEq, Eq, Structural)]
pub struct Tiers {
    pub s: u64,
    pub p: u64,
    /// The tier of a registry write, which is never a send.
    pub r: u64,
}

impl Tiers {
    pub open spec fn tier(&self, shape: L2ShapeTag) -> u64 {
        match shape {
            L2ShapeTag::S => self.s,
            L2ShapeTag::P => self.p,
            L2ShapeTag::R => self.r,
        }
    }

    /// The tier of a shape.
    pub fn of(&self, shape: L2ShapeTag) -> (r: u64)
        ensures
            r == self.tier(shape),
    {
        match shape {
            L2ShapeTag::S => self.s,
            L2ShapeTag::P => self.p,
            L2ShapeTag::R => self.r,
        }
    }
}

/// What building or submitting a spend came to when it failed. The words of the
/// builder and of the node are kept as they were given.
#[derive(Debug, PartialEq, Eq)]
#[allow(inconsistent_fields)]
pub enum SpendError {
    /// This wallet's address is on the freeze list of the asset.
    Frozen { asset: u64 },
    /// What was served cannot be used.
    Served(String),
    /// The node refused the transaction.
    Refused(String),
    /// The spend could not be assembled or proved.
    Failed(String),
}

impl SpendError {
    /// The sentence that a person is shown.
    pub open spec fn text(&self) -> Seq<char> {
        match self {
            SpendError::Frozen { asset } => "this wallet's address is frozen for asset "@ + dec(*asset as nat),
            SpendError::Served(why) => why@,
            SpendError::Refused(node) => node@,
            SpendError::Failed(why) => why@,
        }
    }

    /// The sentence that a person is shown.
    pub fn message(&self) -> (r: String)
        ensures
            r@ == self.text(),
    {
        let mut s: String = String::new();
        match self {
            SpendError::Frozen { asset } => {
                s.append("this wallet's address is frozen for asset ");
                push_dec(&mut s, *asset);
            },
            SpendError::Served(why) => {
                s.append(why.as_str());
            },
            SpendError::Refused(node) => {
                s.append(node.as_str());
            },
            SpendError::Failed(why) => {
                s.append(why.as_str());
            },
        }
        assert(s@ =~= self.text());
        s
    }
}

/// Why a send cannot be planned or made.
#[derive(Debug, PartialEq, Eq)]
#[allow(inconsistent_fields)]
pub enum SendRefusal {
    /// No single spendable note of the asset covers the amount, with the fee
    /// for asset 0.
    NoSingleNoteCovers { asset: u16, amount: u64, largest: u64 },
    /// No fee note of exactly the tariff, and none large enough to split one off.
    NoFeeSource { tariff: u64, split_needs: u128 },
    /// All spendable notes of the asset together are below the amount.
    InsufficientAsset { asset: u16, amount: u64, spendable: u128 },
    /// The plan needs `needed` fee notes; `held` are held and `splittable` can
    /// be split off.
    FeeNotesShort { tariff: u64, needed: usize, held: usize, splittable: usize },
    /// The plan was shown and not accepted: nothing was proved.
    PlanDeclined,
    /// The outputs and the spends are not both known.
    NoBalance,
    /// The endpoint is not the pinned Annulet chain, or not Annulet at all.
    Form(AnnuletRefusal),
    /// The endpoint's params are for another genesis than it serves.
    ParamsGenesisMismatch,
    /// The assembly or the node said no.
    Spend(SpendError),
    /// A fee split was admitted but its note did not appear in the tree.
    SplitNotIncluded { waited_secs: u64 },
    /// This wallet holds no issuer secret for the asset that the registry names.
    NotTheIssuer { asset: u16 },
    /// A mint rides an issuer-held note of the asset, and there is none.
    NoIssuerNote { asset: u16 },
    /// The issuer file could not be read.
    Issuer(String),
    /// A registration into a slot that already holds a leaf.
    SlotTaken { asset: u16 },
    /// An update of a slot that holds no leaf.
    SlotEmpty { asset: u16 },
    /// The leaf asked for is not one that can be written.
    LeafRefused(String),
    /// No asset-0 note of at least the tariff to pay a registry write.
    NoRegistryFeeNote { tariff: u64 },
    /// Another registry write was pooled or landed first.
    RegistryRaced(String),
}

impl SendRefusal {
    /// The sentence that a person is shown.
    pub open spec fn text(&self) -> Seq<char> {
        match self {
            SendRefusal::NoSingleNoteCovers { asset, amount, largest } => "no single spendable note of asset "@ + dec(*asset as nat) + " covers "@ + dec(*amount as nat) + " (the largest is "@ + dec(*largest as nat) + "). An L2 2×2 transaction takes one note of the asset plus one asset-0 fee note, and two notes of a non-fee asset cannot be merged (both inputs would be that asset and nothing would pay the fee) — a recorded design limit, lab #720 P4. Send at most "@ + dec(*largest as nat),
            SendRefusal::NoFeeSource { tariff, split_needs } => "no asset-0 note of exactly "@ + dec(*tariff as nat) + " (the fee is paid whole: there is no fee change in 2×2), and no asset-0 note of at least "@ + dec(*split_needs as nat) + " to split one off"@,
            SendRefusal::InsufficientAsset { asset, amount, spendable } => "all spendable notes of asset "@ + dec(*asset as nat) + " together hold "@ + dec(*spendable as nat) + ", less than "@ + dec(*amount as nat),
            SendRefusal::FeeNotesShort { tariff, needed, held, splittable } => "the plan needs "@ + dec(*needed as nat) + " asset-0 fee note(s) of exactly "@ + dec(*tariff as nat) + " (one per merge and one for the payment — each is spent whole); this wallet holds "@ + dec(*held as nat) + " and its other asset-0 notes split into "@ + dec(*splittable as nat) + " more"@,
            SendRefusal::PlanDeclined => "the plan was not accepted; nothing was proved"@,
            SendRefusal::NoBalance => "no quotable balance: the scan did not establish both the outputs and the spends"@,
            SendRefusal::Form(e) => e.text(),
            SendRefusal::ParamsGenesisMismatch => "the endpoint's /v1/annulet/params name a different genesis than it serves"@,
            SendRefusal::Spend(e) => e.text(),
            SendRefusal::NotTheIssuer { asset } => "this wallet holds no issuer secret for asset "@ + dec(*asset as nat) + " matching the registry's issuer key"@,
            SendRefusal::NoIssuerNote { asset } => "a mint rides an issuer-held note of asset "@ + dec(*asset as nat) + " and this wallet holds none (lab #722 P3: the genesis seeds one; an issuer that spends its last one cannot mint again)"@,
            SendRefusal::Issuer(e) => "issuer file: "@ + e@,
            SendRefusal::SlotTaken { asset } => "registry slot "@ + dec(*asset as nat) + " already holds a leaf: a registration writes an empty slot (an issuer changes its own leaf with `issuer update`)"@,
            SendRefusal::SlotEmpty { asset } => "registry slot "@ + dec(*asset as nat) + " holds no leaf: register it first"@,
            SendRefusal::LeafRefused(why) => "the registry leaf is refused before proving: "@ + why@,
            SendRefusal::NoRegistryFeeNote { tariff } => "no asset-0 note of at least "@ + dec(*tariff as nat) + " (the registry-write tariff) to pay with; the change comes back, so any note that large will do"@,
            SendRefusal::RegistryRaced(node) => "another registry write was pooled or landed first, so this one binds a registry root that is gone ("@ + node@ + "); re-read the slot and write again"@,
            SendRefusal::SplitNotIncluded { waited_secs } => "the fee-split was admitted but its note was not in the served tree after "@ + dec(*waited_secs as nat) + " s; run the send again once it is"@,
        }
    }

    /// The sentence that a person is shown.
    pub fn message(&self) -> (r: String)
        ensures
            r@ == self.text(),
    {
        let mut s: String = String::new();
        match self {
            SendRefusal::NoSingleNoteCovers { asset, amount, largest } => {
                s.append("no single spendable note of asset ");
                push_dec(&mut s, *asset as u64);
                s.append(" covers ");
                push_dec(&mut s, *amount);
                s.append(" (the largest is ");
                push_dec(&mut s, *largest);
                s.append("). An L2 2×2 transaction takes one note of the asset plus one asset-0 fee note, and two notes of a non-fee asset cannot be merged (both inputs would be that asset and nothing would pay the fee) — a recorded design limit, lab #720 P4. Send at most ");
                push_dec(&mut s, *largest);
            },
            SendRefusal::NoFeeSource { tariff, split_needs } => {
                s.append("no asset-0 note of exactly ");
                push_dec(&mut s, *tariff);
                s.append(" (the fee is paid whole: there is no fee change in 2×2), and no asset-0 note of at least ");
                push_dec_wide(&mut s, *split_needs);
                s.append(" to split one off");
            },
            SendRefusal::InsufficientAsset { asset, amount, spendable } => {
                s.append("all spendable notes of asset ");
                push_dec(&mut s, *asset as u64);
                s.append(" together hold ");
                push_dec_wide(&mut s, *spendable);
                s.append(", less than ");
                push_dec(&mut s, *amount);
            },
            SendRefusal::FeeNotesShort { tariff, needed, held, splittable } => {
                s.append("the plan needs ");
                push_dec(&mut s, *needed as u64);
                s.append(" asset-0 fee note(s) of exactly ");
                push_dec(&mut s, *tariff);
                s.append(" (one per merge and one for the payment — each is spent whole); this wallet holds ");
                push_dec(&mut s, *held as u64);
                s.append(" and its other asset-0 notes split into ");
                push_dec(&mut s, *splittable as u64);
                s.append(" more");
            },
            SendRefusal::PlanDeclined => {
                s.append("the plan was not accepted; nothing was proved");
            },
            SendRefusal::NoBalance => {
                s.append("no quotable balance: the scan did not establish both the outputs and the spends");
            },
            SendRefusal::Form(e) => {
                { let q = e.message(); s.append(q.as_str()); }
            },
            SendRefusal::ParamsGenesisMismatch => {
                s.append("the endpoint's /v1/annulet/params name a different genesis than it serves");
            },
            SendRefusal::Spend(e) => {
                { let q = e.message(); s.append(q.as_str()); }
            },
            SendRefusal::NotTheIssuer { asset } => {
                s.append("this wallet holds no issuer secret for asset ");
                push_dec(&mut s, *asset as u64);
                s.append(" matching the registry's issuer key");
            },
            SendRefusal::NoIssuerNote { asset } => {
                s.append("a mint rides an issuer-held note of asset ");
                push_dec(&mut s, *asset as u64);
                s.append(" and this wallet holds none (lab #722 P3: the genesis seeds one; an issuer that spends its last one cannot mint again)");
            },
            SendRefusal::Issuer(e) => {
                s.append("issuer file: ");
                s.append(e.as_str());
            },
            SendRefusal::SlotTaken { asset } => {
                s.append("registry slot ");
                push_dec(&mut s, *asset as u64);
                s.append(" already holds a leaf: a registration writes an empty slot (an issuer changes its own leaf with `issuer update`)");
            },
            SendRefusal::SlotEmpty { asset } => {
                s.append("registry slot ");
                push_dec(&mut s, *asset as u64);
                s.append(" holds no leaf: register it first");
            },
            SendRefusal::LeafRefused(why) => {
                s.append("the registry leaf is refused before proving: ");
                s.append(why.as_str());
            },
            SendRefusal::NoRegistryFeeNote { tariff } => {
                s.append("no asset-0 note of at least ");
                push_dec(&mut s, *tariff);
                s.append(" (the registry-write tariff) to pay with; the change comes back, so any note that large will do");
            },
            SendRefusal::RegistryRaced(node) => {
                s.append("another registry write was pooled or landed first, so this one binds a registry root that is gone (");
                s.append(node.as_str());
                s.append("); re-read the slot and write again");
            },
            SendRefusal::SplitNotIncluded { waited_secs } => {
                s.append("the fee-split was admitted but its note was not in the served tree after ");
                push_dec(&mut s, *waited_secs);
                s.append(" s; run the send again once it is");
            },
        }
        assert(s@ =~= self.text());
        s
    }
}

/// A note of this wallet on an Annulet net.
#[derive(Clone, Copy, Debug, PartialEq, Eq)]
pub struct OwnedL2Note {
    pub value: u64,
    pub asset: u16,
    pub cm: [u8; 32],
}

/// The notes of one asset: those that can be spent and those that were.
#[derive(Debug)]
pub struct AssetNotes {
    pub asset: u16,
    pub spendable: Vec<OwnedL2Note>,
    pub spent: Vec<OwnedL2Note>,
}

/// The wallet's notes per asset.
#[derive(Debug)]
pub struct AssetIndex {
    pub by_asset: Vec<AssetNotes>,
}

/// The values of notes, in their order.
pub open spec fn values(notes: Seq<OwnedL2Note>) -> Seq<u64> {
    Seq::new(notes.len(), |i: int| notes[i].value)
}

/// The spendable notes that the first entry for `asset` from place `i` on holds.
pub open spec fn spendable_from(entries: Seq<AssetNotes>, asset: u16, i: int) -> Seq<OwnedL2Note>
    decreases entries.len() - i,
{
    if i < 0 || i >= entries.len() {
        Seq::empty()
    } else if entries[i].asset == asset {
        entries[i].spendable@
    } else {
        spendable_from(entries, asset, i + 1)
    }
}

/// The spendable notes of an asset are those of its first entry, and none where
/// it has no entry.
pub proof fn law_an_asset_has_its_entrys_notes(entries: Seq<AssetNotes>, asset: u16, at: int)
    requires
        0 <= at <= entries.len(),
        at < entries.len() ==> entries[at].asset == asset,
        forall|j: int| 0 <= j < at ==> (#[trigger] entries[j]).asset != asset,
    ensures
        spendable_from(entries, asset, 0) == (if at < entries.len() {
            entries[at].spendable@
        } else {
            Seq::empty()
        }),
{
    lemma_spendable_from(entries, asset, at, 0);
}

proof fn lemma_spendable_from(entries: Seq<AssetNotes>, asset: u16, at: int, i: int)
    requires
        0 <= i <= at <= entries.len(),
        forall|j: int| 0 <= j < at ==> (#[trigger] entries[j]).asset != asset,
    ensures
        spendable_from(entries, asset, i) == spendable_from(entries, asset, at),
    decreases at - i,
{
    if i < at {
        lemma_spendable_from(entries, asset, at, i + 1);
    }
}

impl AssetIndex {
    pub open spec fn held(&self, asset: u16) -> Seq<OwnedL2Note> {
        spendable_from(self.by_asset@, asset, 0)
    }

    /// The spendable notes of an asset; none where the index has no entry.
    pub fn spendable(&self, asset: u16) -> (r: &[OwnedL2Note])
        ensures
            r@ == self.held(asset),
    {
        let mut i: usize = 0;
        while i < self.by_asset.len()
            invariant
                i <= self.by_asset@.len(),
                self.held(asset) == spendable_from(self.by_asset@, asset, i as int),
            decreases self.by_asset@.len() - i,
        {
            if self.by_asset[i].asset == asset {
                return self.by_asset[i].spendable.as_slice();
            }
            i += 1;
        }
        let r: &[OwnedL2Note] = &[];
        assert(r@ =~= Seq::empty());
        r
    }
}

/// A note that the wallet holds now: its asset and its place among the
/// spendable notes of that asset.
#[derive(Clone, Copy, Debug, PartialEq, Eq, Structural)]
pub struct HeldNote {
    pub at: usize,
    pub value: u64,
    pub asset: u16,
}

/// Where a planned input comes from.
#[derive(Clone, Copy, Debug, PartialEq, Eq, Structural)]
#[allow(inconsistent_fields)]
pub enum Src {
    /// A note this wallet holds now.
    Held(HeldNote),
    /// Output `out` of plan step `step`, paid to this wallet's address 0 and
    /// spendable once that step has landed.
    Made { step: usize, out: usize, value: u64, asset: u16 },
}

impl Src {
    pub open spec fn worth(&self) -> u64 {
        match self {
            Src::Held(n) => n.value,
            Src::Made { value, .. } => *value,
        }
    }

    pub open spec fn of_asset(&self) -> u16 {
        match self {
            Src::Held(n) => n.asset,
            Src::Made { asset, .. } => *asset,
        }
    }

    pub fn value(&self) -> (r: u64)
        ensures
            r == self.worth(),
    {
        match self {
            Src::Held(n) => n.value,
            Src::Made { value, .. } => *value,
        }
    }
}

/// What one transaction of a plan does.
#[derive(Debug)]
#[allow(inconsistent_fields)]
pub enum StepKind {
    /// An asset-0 note into an exact fee note and the rest, both to this
    /// wallet, paying the S tier from the same note.
    FeeSplit { source: Src, tariff: u64 },
    /// Two notes of the asset into one, to this wallet, plus a 0-value note of
    /// it; the third input pays the fee.
    Merge { inputs: [Src; 2], fee: Src },
    /// The payment: the amount to the payee, the rest back to this wallet.
    /// Without a fee note the one input pays its own fee; with one input the
    /// fee note is the second, with two it is the third.
    Pay { inputs: Vec<Src>, fee: Option<Src> },
}

/// A planned transaction: its round (it spends only notes that landed in an
/// earlier one), its shape and fee, and the values of its two outputs.
#[derive(Debug)]
pub struct Step {
    pub round: usize,
    pub shape: L2ShapeTag,
    pub fee: u64,
    pub kind: StepKind,
    pub outputs: [u64; 2],
}

/// The plan that a send shows before it proves anything.
#[derive(Debug)]
pub struct SendPlan {
    pub asset: u16,
    pub amount: u64,
    pub steps: Vec<Step>,
}

/// A [`StepKind`] as a value.
#[allow(inconsistent_fields)]
pub enum KindModel {
    FeeSplit { source: Src, tariff: u64 },
    Merge { first: Src, second: Src, fee: Src },
    Pay { inputs: Seq<Src>, fee: Option<Src> },
}

/// A [`Step`] as a value.
pub struct StepModel {
    pub round: nat,
    pub shape: L2ShapeTag,
    pub fee: u64,
    pub kind: KindModel,
    pub outputs: (u64, u64),
}

impl StepKind {
    pub open spec fn view(&self) -> KindModel {
        match self {
            StepKind::FeeSplit { source, tariff } => KindModel::FeeSplit {
                source: *source,
                tariff: *tariff,
            },
            StepKind::Merge { inputs, fee } => KindModel::Merge {
                first: inputs@[0],
                second: inputs@[1],
                fee: *fee,
            },
            StepKind::Pay { inputs, fee } => KindModel::Pay { inputs: inputs@, fee: *fee },
        }
    }
}

impl Step {
    pub open spec fn view(&self) -> StepModel {
        StepModel {
            round: self.round as nat,
            shape: self.shape,
            fee: self.fee,
            kind: self.kind.view(),
            outputs: (self.outputs@[0], self.outputs@[1]),
        }
    }
}

/// Steps as values, in their order.
pub open spec fn models(steps: Seq<Step>) -> Seq<StepModel> {
    Seq::new(steps.len(), |i: int| steps[i].view())
}

impl SendPlan {
    /// No step is in a later round than its place.
    pub open spec fn orderly(&self) -> bool {
        forall|i: int| 0 <= i < self.steps@.len() ==> (#[trigger] self.steps@[i]).round <= i
    }
}

/// The first round in which a note can be spent.
pub open spec fn ready(src: Src, steps: Seq<StepModel>) -> nat {
    match src {
        Src::Held(_) => 0,
        Src::Made { step, .. } => steps[step as int].round + 1,
    }
}

/// The held notes of an asset, as sources.
pub open spec fn holdings(v: Seq<u64>, asset: u16) -> Seq<Src> {
    Seq::new(v.len(), |i: int| Src::Held(HeldNote { at: i as usize, value: v[i], asset }))
}

/// The place of the smallest of the first `n` values that reach `need`; the
/// first of equals.
pub open spec fn least_to(v: Seq<u64>, need: u64, n: int) -> Option<int>
    decreases n,
{
    if n <= 0 {
        None
    } else {
        match least_to(v, need, n - 1) {
            Some(b) => if v[n - 1] >= need && v[n - 1] < v[b] {
                Some(n - 1)
            } else {
                Some(b)
            },
            None => if v[n - 1] >= need {
                Some(n - 1)
            } else {
                None
            },
        }
    }
}

pub open spec fn least(v: Seq<u64>, need: u64) -> Option<int> {
    least_to(v, need, v.len() as int)
}

pub proof fn lemma_least(v: Seq<u64>, need: u64, n: int)
    requires
        0 <= n <= v.len(),
    ensures
        least_to(v, need, n) matches Some(b) ==> 0 <= b < n && v[b] >= need && (forall|i: int|
            0 <= i < n && #[trigger] v[i] >= need ==> v[b] <= v[i]),
        least_to(v, need, n) is None <==> (forall|i: int| 0 <= i < n ==> #[trigger] v[i] < need),
    decreases n,
{
    if n > 0 {
        lemma_least(v, need, n - 1);
    }
}

/// The greatest value, 0 where there is none.
pub open spec fn greatest(v: Seq<u64>) -> u64
    decreases v.len(),
{
    if v.len() == 0 {
        0
    } else if v.last() > greatest(v.drop_last()) {
        v.last()
    } else {
        greatest(v.drop_last())
    }
}

/// The smallest spendable note that reaches `need`.
pub fn smallest_covering(notes: &[OwnedL2Note], need: u64) -> (r: Option<usize>)
    ensures
        match r {
            Some(b) => least(values(notes@), need) == Some(b as int) && b < notes@.len(),
            None => least(values(notes@), need) is None,
        },
        // It reaches the need, and none that does is smaller.
        match r {
            Some(b) => notes@[b as int].value >= need && forall|i: int|
                0 <= i < notes@.len() && (#[trigger] notes@[i]).value >= need
                    ==> notes@[b as int].value <= notes@[i].value,
            None => forall|i: int| 0 <= i < notes@.len() ==> (#[trigger] notes@[i]).value < need,
        },
{
    let ghost v = values(notes@);
    let mut best: Option<usize> = None;
    let mut i: usize = 0;
    while i < notes.len()
        invariant
            i <= notes@.len(),
            v == values(notes@),
            match best {
                Some(b) => least_to(v, need, i as int) == Some(b as int) && b < i,
                None => least_to(v, need, i as int) is None,
            },
        decreases notes@.len() - i,
    {
        let value: u64 = notes[i].value;
        match best {
            Some(b) => {
                if value >= need && value < notes[b].value {
                    best = Some(i);
                }
            },
            None => {
                if value >= need {
                    best = Some(i);
                }
            },
        }
        i += 1;
    }
    proof {
        lemma_least(v, need, notes@.len() as int);
        assert forall|k: int| 0 <= k < notes@.len() implies (#[trigger] notes@[k]).value == v[k] by {}
    }
    best
}

pub proof fn lemma_greatest(v: Seq<u64>)
    ensures
        forall|i: int| 0 <= i < v.len() ==> #[trigger] v[i] <= greatest(v),
        v.len() > 0 ==> exists|i: int| 0 <= i < v.len() && #[trigger] v[i] == greatest(v),
    decreases v.len(),
{
    if v.len() > 0 {
        let front = v.drop_last();
        lemma_greatest(front);
        assert forall|i: int| 0 <= i < v.len() implies #[trigger] v[i] <= greatest(v) by {
            if i < front.len() {
                assert(front[i] == v[i]);
            }
        }
        if v.last() > greatest(front) || front.len() == 0 {
            assert(v[v.len() - 1] == greatest(v));
        } else {
            let i = choose|i: int| 0 <= i < front.len() && #[trigger] front[i] == greatest(front);
            assert(v[i] == greatest(v));
        }
    }
}

pub(crate) fn largest(notes: &[OwnedL2Note]) -> (r: u64)
    ensures
        r == greatest(values(notes@)),
        forall|i: int| 0 <= i < notes@.len() ==> (#[trigger] notes@[i]).value <= r,
        notes@.len() > 0 ==> exists|i: int| 0 <= i < notes@.len() && (#[trigger] notes@[i]).value == r,
        notes@.len() == 0 ==> r == 0,
{
    let mut r: u64 = 0;
    let mut i: usize = 0;
    assert(values(notes@).take(0) =~= Seq::empty());
    while i < notes.len()
        invariant
            i <= notes@.len(),
            r == greatest(values(notes@).take(i as int)),
        decreases notes@.len() - i,
    {
        assert(values(notes@).take(i + 1).drop_last() =~= values(notes@).take(i as int));
        if notes[i].value > r {
            r = notes[i].value;
        }
        i += 1;
    }
    assert(values(notes@).take(i as int) =~= values(notes@));
    proof {
        let v = values(notes@);
        lemma_greatest(v);
        assert forall|k: int| 0 <= k < notes@.len() implies (#[trigger] notes@[k]).value == v[k] by {}
        if v.len() > 0 {
            let k = choose|k: int| 0 <= k < v.len() && #[trigger] v[k] == greatest(v);
            assert(notes@[k].value == r);
        }
    }
    r
}

/// The asset-0 notes of exactly the tariff among the first `n`, in their order.
pub open spec fn exact_to(v: Seq<u64>, tariff: u64, n: int) -> Seq<Src>
    decreases n,
{
    if n <= 0 {
        Seq::empty()
    } else if v[n - 1] == tariff {
        exact_to(v, tariff, n - 1).push(holdings(v, 0)[n - 1])
    } else {
        exact_to(v, tariff, n - 1)
    }
}

/// The other asset-0 notes among the first `n`, each with the round from which
/// it can be spent.
pub open spec fn others_to(v: Seq<u64>, tariff: u64, n: int) -> Seq<(Src, nat)>
    decreases n,
{
    if n <= 0 {
        Seq::empty()
    } else if v[n - 1] == tariff {
        others_to(v, tariff, n - 1)
    } else {
        others_to(v, tariff, n - 1).push((holdings(v, 0)[n - 1], 0))
    }
}

/// The place among the first `n` of the note to split: one worth at least
/// `need`, of those the earliest ready, of those the smallest, of those the
/// first.
pub open spec fn split_pick(pool: Seq<(Src, nat)>, need: int, n: int) -> Option<int>
    decreases n,
{
    if n <= 0 {
        None
    } else {
        let c = pool[n - 1];
        match split_pick(pool, need, n - 1) {
            None => if c.0.worth() >= need {
                Some(n - 1)
            } else {
                None
            },
            Some(b) => if c.0.worth() >= need && (c.1 < pool[b].1 || (c.1 == pool[b].1
                && c.0.worth() < pool[b].0.worth())) {
                Some(n - 1)
            } else {
                Some(b)
            },
        }
    }
}

/// Where a run of fee splits stands: the notes that can still be split, the
/// fee notes made, and the steps planned.
pub struct SplitState {
    pub pool: Seq<(Src, nat)>,
    pub made: Seq<Src>,
    pub steps: Seq<StepModel>,
}

/// The fee split of the pool's note at `k`.
pub open spec fn split_model(st: SplitState, k: int, tariff: u64, s_tier: u64) -> StepModel {
    StepModel {
        round: st.pool[k].1,
        shape: L2ShapeTag::S,
        fee: s_tier,
        kind: KindModel::FeeSplit { source: st.pool[k].0, tariff },
        outputs: (tariff, (st.pool[k].0.worth() - tariff - s_tier) as u64),
    }
}

/// Output `out` of the step that comes at `at`, worth `value` in asset 0.
pub open spec fn fee_output(at: nat, out: usize, value: u64) -> Src {
    Src::Made { step: at as usize, out, value, asset: 0 }
}

/// One fee split. A rest that is itself exact is a second fee note while one is
/// still missing; one that can be split again goes back for the next round.
pub open spec fn split_once(
    st: SplitState,
    k: int,
    tariff: u64,
    s_tier: u64,
    deficit: nat,
) -> SplitState {
    let rest = (st.pool[k].0.worth() - tariff - s_tier) as u64;
    let at = st.steps.len();
    let left = st.pool.update(k, st.pool.last()).drop_last();
    let one = st.made.push(fee_output(at, 0, tariff));
    let steps = st.steps.push(split_model(st, k, tariff, s_tier));
    if rest == tariff && one.len() < deficit {
        SplitState { pool: left, made: one.push(fee_output(at, 1, rest)), steps }
    } else if rest >= tariff + s_tier {
        SplitState {
            pool: left.push((fee_output(at, 1, rest), st.pool[k].1 + 1)),
            made: one,
            steps,
        }
    } else {
        SplitState { pool: left, made: one, steps }
    }
}

/// Fee splits until `deficit` fee notes are made, or the number that could be.
pub open spec fn splits(st: SplitState, tariff: u64, s_tier: u64, deficit: nat) -> Result<
    SplitState,
    nat,
>
    decreases deficit - st.made.len(),
{
    if st.made.len() >= deficit {
        Ok(st)
    } else {
        match split_pick(st.pool, tariff + s_tier, st.pool.len() as int) {
            None => Err(st.made.len()),
            Some(k) => splits(split_once(st, k, tariff, s_tier, deficit), tariff, s_tier, deficit),
        }
    }
}

/// Where fee splits start: the asset-0 notes that are not of the tariff, no fee
/// note made, and the steps planned before.
pub open spec fn split_start(v: Seq<u64>, tariff: u64, steps: Seq<StepModel>) -> SplitState {
    SplitState { pool: others_to(v, tariff, v.len() as int), made: Seq::empty(), steps }
}

/// The pool as a value.
pub open spec fn pool_of(pool: Seq<(Src, usize)>) -> Seq<(Src, nat)> {
    Seq::new(pool.len(), |i: int| (pool[i].0, pool[i].1 as nat))
}

/// The note that is split reaches what is needed, is ready no later than any
/// other that does, and is the smallest of those that are ready with it; there is
/// none exactly where no note reaches it.
pub proof fn lemma_split_pick(pool: Seq<(Src, nat)>, need: int, n: int)
    requires
        0 <= n <= pool.len(),
    ensures
        split_pick(pool, need, n) matches Some(k) ==> 0 <= k < n && pool[k].0.worth() >= need && (
        forall|i: int|
            0 <= i < n && (#[trigger] pool[i]).0.worth() >= need ==> pool[k].1 < pool[i].1 || (
            pool[k].1 == pool[i].1 && pool[k].0.worth() <= pool[i].0.worth())),
        split_pick(pool, need, n) is None <==> (forall|i: int|
            0 <= i < n ==> (#[trigger] pool[i]).0.worth() < need),
    decreases n,
{
    if n > 0 {
        lemma_split_pick(pool, need, n - 1);
    }
}

fn pick_split(pool: &Vec<(Src, usize)>, need: u128) -> (r: Option<usize>)
    ensures
        match r {
            Some(k) => split_pick(pool_of(pool@), need as int, pool@.len() as int) == Some(k as int)
                && k < pool@.len() && pool@[k as int].0.worth() >= need,
            None => split_pick(pool_of(pool@), need as int, pool@.len() as int) is None,
        },
{
    let ghost p = pool_of(pool@);
    let mut best: Option<usize> = None;
    let mut i: usize = 0;
    while i < pool.len()
        invariant
            i <= pool@.len(),
            p == pool_of(pool@),
            match best {
                Some(b) => split_pick(p, need as int, i as int) == Some(b as int) && b < i,
                None => split_pick(p, need as int, i as int) is None,
            },
        decreases pool@.len() - i,
    {
        let value: u64 = pool[i].0.value();
        let round: usize = pool[i].1;
        match best {
            Some(b) => {
                let least: u64 = pool[b].0.value();
                let first: usize = pool[b].1;
                if value as u128 >= need && (round < first || (round == first && value < least)) {
                    best = Some(i);
                }
            },
            None => {
                if value as u128 >= need {
                    best = Some(i);
                }
            },
        }
        i += 1;
    }
    proof {
        lemma_split_pick(p, need as int, pool@.len() as int);
    }
    best
}

/// Plans `deficit` fee notes of exactly the tariff from the asset-0 notes that
/// are not of it, and appends the steps; says how many could be made where they
/// do not suffice.
pub fn plan_fee_splits(
    fee_notes: &[OwnedL2Note],
    tariff: u64,
    s_tier: u64,
    deficit: usize,
    steps: &mut Vec<Step>,
) -> (r: Result<Vec<Src>, usize>)
    requires
        forall|i: int| 0 <= i < old(steps)@.len() ==> #[trigger] old(steps)@[i].round <= i,
    ensures
        forall|i: int| 0 <= i < final(steps)@.len() ==> #[trigger] final(steps)@[i].round <= i,
        match (r, splits(
            split_start(values(fee_notes@), tariff, models(old(steps)@)),
            tariff,
            s_tier,
            deficit as nat,
        )) {
            (Ok(made), Ok(st)) => made@ == st.made && models(final(steps)@) == st.steps,
            (Err(n), Err(m)) => n == m,
            _ => false,
        },
{
    let ghost v = values(fee_notes@);
    let ghost start = split_start(v, tariff, models(steps@));
    let need: u128 = tariff as u128 + s_tier as u128;
    let mut pool: Vec<(Src, usize)> = Vec::new();
    let mut i: usize = 0;
    assert(pool_of(pool@) =~= others_to(v, tariff, 0));
    while i < fee_notes.len()
        invariant
            i <= fee_notes@.len(),
            v == values(fee_notes@),
            pool_of(pool@) == others_to(v, tariff, i as int),
            forall|k: int| 0 <= k < pool@.len() ==> (#[trigger] pool@[k]).1 == 0,
        decreases fee_notes@.len() - i,
    {
        let value: u64 = fee_notes[i].value;
        if value != tariff {
            pool.push((Src::Held(HeldNote { at: i, value, asset: 0 }), 0));
            assert(pool_of(pool@) =~= others_to(v, tariff, i + 1));
        }
        i += 1;
    }
    let mut made: Vec<Src> = Vec::new();
    let ghost mut st = start;
    assert(made@ =~= st.made);
    while made.len() < deficit
        invariant
            need == tariff + s_tier,
            start == split_start(values(fee_notes@), tariff, models(old(steps)@)),
            st.pool == pool_of(pool@),
            st.made == made@,
            st.steps == models(steps@),
            splits(start, tariff, s_tier, deficit as nat) == splits(
                st,
                tariff,
                s_tier,
                deficit as nat,
            ),
            forall|k: int| 0 <= k < pool@.len() ==> (#[trigger] pool@[k]).1 <= steps@.len(),
            forall|k: int| 0 <= k < steps@.len() ==> (#[trigger] steps@[k]).round <= k,
        decreases deficit - made@.len(),
    {
        match pick_split(&pool, need) {
            None => {
                return Err(made.len());
            },
            Some(k) => {
                let (source, round) = pool.swap_remove(k);
                let rest: u64 = (source.value() as u128 - need) as u64;
                let step: usize = steps.len();
                steps.push(
                    Step {
                        round,
                        shape: L2ShapeTag::S,
                        fee: s_tier,
                        kind: StepKind::FeeSplit { source, tariff },
                        outputs: [tariff, rest],
                    },
                );
                assert(steps@.len() == steps.len());
                made.push(Src::Made { step, out: 0, value: tariff, asset: 0 });
                let ghost left = pool@;
                if rest == tariff && made.len() < deficit {
                    made.push(Src::Made { step, out: 1, value: rest, asset: 0 });
                } else if rest as u128 >= need {
                    pool.push((Src::Made { step, out: 1, value: rest, asset: 0 }, round + 1));
                }
                proof {
                    let next = split_once(st, k as int, tariff, s_tier, deficit as nat);
                    assert(pool_of(left) =~= st.pool.update(k as int, st.pool.last()).drop_last());
                    assert(models(steps@) =~= next.steps);
                    assert(made@ =~= next.made);
                    assert(pool_of(pool@) =~= next.pool);
                    st = next;
                }
            },
        }
    }
    Ok(made)
}

/// What sources are worth together.
pub open spec fn sum_of(s: Seq<Src>) -> nat
    decreases s.len(),
{
    if s.len() == 0 {
        0
    } else {
        sum_of(s.drop_last()) + s.last().worth() as nat
    }
}

/// What the sources at the places `o` are worth together.
spec fn sum_at(s: Seq<Src>, o: Seq<int>) -> nat
    decreases o.len(),
{
    if o.len() == 0 {
        0
    } else {
        sum_at(s, o.drop_last()) + s[o.last()].worth() as nat
    }
}

pub proof fn lemma_sum_add(x: Seq<Src>, y: Seq<Src>)
    ensures
        sum_of(x + y) == sum_of(x) + sum_of(y),
    decreases y.len(),
{
    if y.len() == 0 {
        assert(x + y =~= x);
    } else {
        assert((x + y).drop_last() =~= x + y.drop_last());
        lemma_sum_add(x, y.drop_last());
    }
}

pub proof fn lemma_sum_split(s: Seq<Src>, k: int)
    requires
        0 <= k <= s.len(),
    ensures
        sum_of(s) == sum_of(s.take(k)) + sum_of(s.skip(k)),
{
    assert(s.take(k) + s.skip(k) =~= s);
    lemma_sum_add(s.take(k), s.skip(k));
}

pub proof fn lemma_sum_one(s: Seq<Src>)
    requires
        s.len() == 1,
    ensures
        sum_of(s) == s[0].worth(),
{
    assert(s.drop_last() =~= Seq::empty());
    assert(sum_of(s.drop_last()) == 0);
}

pub proof fn lemma_sum_two(s: Seq<Src>)
    requires
        s.len() == 2,
    ensures
        sum_of(s) == s[0].worth() + s[1].worth(),
{
    lemma_sum_one(s.drop_last());
}

pub proof fn lemma_sum_has(s: Seq<Src>, i: int)
    requires
        0 <= i < s.len(),
    ensures
        sum_of(s) >= s[i].worth(),
    decreases s.len(),
{
    if i < s.len() - 1 {
        lemma_sum_has(s.drop_last(), i);
    }
}

proof fn lemma_sum_at_insert(s: Seq<Src>, o: Seq<int>, at: int, x: int)
    requires
        0 <= at <= o.len(),
    ensures
        sum_at(s, o.insert(at, x)) == sum_at(s, o) + s[x].worth(),
    decreases o.len(),
{
    let p = o.insert(at, x);
    if at == o.len() {
        assert(p.drop_last() =~= o);
    } else {
        assert(p.drop_last() =~= o.drop_last().insert(at, x));
        lemma_sum_at_insert(s, o.drop_last(), at, x);
    }
}

proof fn lemma_sum_at_same(s: Seq<Src>, t: Seq<Src>, o: Seq<int>)
    requires
        forall|i: int| 0 <= i < o.len() ==> s[#[trigger] o[i]] == t[o[i]],
    ensures
        sum_at(s, o) == sum_at(t, o),
    decreases o.len(),
{
    if o.len() > 0 {
        assert(s[o[o.len() - 1]] == t[o[o.len() - 1]]);
        assert forall|i: int| 0 <= i < o.drop_last().len() implies s[#[trigger] o.drop_last()[i]]
            == t[o.drop_last()[i]] by {
            assert(o.drop_last()[i] == o[i]);
        }
        lemma_sum_at_same(s, t, o.drop_last());
    }
}

proof fn lemma_sum_at_order(s: Seq<Src>, keys: Seq<u64>)
    requires
        s.len() == keys.len(),
    ensures
        sum_at(s, order(keys)) == sum_of(s),
    decreases s.len(),
{
    if s.len() > 0 {
        let front = order(keys.drop_last());
        let n = keys.len() - 1;
        let at = crate::order::slot(front, keys, keys.last(), 0);
        lemma_order(keys.drop_last());
        lemma_order(keys);
        crate::order::lemma_slot(front, keys, keys.last(), 0);
        lemma_sum_at_insert(s, front, at, n);
        assert forall|i: int| 0 <= i < front.len() implies s[#[trigger] front[i]]
            == s.drop_last()[front[i]] by {}
        lemma_sum_at_same(s, s.drop_last(), front);
        lemma_sum_at_order(s.drop_last(), keys.drop_last());
    }
}

proof fn lemma_sum_at_is_sum(s: Seq<Src>, o: Seq<int>, t: Seq<Src>)
    requires
        t.len() == o.len(),
        forall|i: int| 0 <= i < o.len() ==> #[trigger] t[i] == s[o[i]],
    ensures
        sum_at(s, o) == sum_of(t),
    decreases o.len(),
{
    if o.len() > 0 {
        lemma_sum_at_is_sum(s, o.drop_last(), t.drop_last());
        assert(t[t.len() - 1] == s[o[o.len() - 1]]);
    }
}

/// Reordering sources leaves their worth together as it is.
pub proof fn lemma_sum_in_order(s: Seq<Src>, keys: Seq<u64>)
    requires
        s.len() == keys.len(),
    ensures
        sum_of(in_order(s, keys)) == sum_of(s),
        in_order(s, keys).len() == s.len(),
{
    lemma_order(keys);
    lemma_sum_at_order(s, keys);
    lemma_sum_at_is_sum(s, order(keys), in_order(s, keys));
}

/// The keys that order sources from the smallest up.
pub open spec fn rising(s: Seq<Src>) -> Seq<u64> {
    Seq::new(s.len(), |i: int| s[i].worth())
}

/// The keys that order sources from the largest down.
pub open spec fn falling(s: Seq<Src>) -> Seq<u64> {
    Seq::new(s.len(), |i: int| (u64::MAX - s[i].worth()) as u64)
}

pub open spec fn ascending(s: Seq<Src>) -> Seq<Src> {
    in_order(s, rising(s))
}

pub open spec fn descending(s: Seq<Src>) -> Seq<Src> {
    in_order(s, falling(s))
}

fn sorted(s: &Vec<Src>, keys: &Vec<u64>) -> (r: Vec<Src>)
    requires
        keys@.len() == s@.len(),
    ensures
        r@ == in_order(s@, keys@),
{
    let places = order_of(keys.as_slice());
    let mut r: Vec<Src> = Vec::new();
    let mut i: usize = 0;
    while i < places.len()
        invariant
            i <= places@.len(),
            keys@.len() == s@.len(),
            places@.len() == order(keys@).len(),
            r@.len() == i,
            forall|k: int|
                0 <= k < places@.len() ==> #[trigger] places@[k] as int == order(keys@)[k],
            forall|k: int| 0 <= k < places@.len() ==> #[trigger] places@[k] < keys@.len(),
            forall|k: int| 0 <= k < i ==> #[trigger] r@[k] == s@[order(keys@)[k]],
        decreases places@.len() - i,
    {
        r.push(s[places[i]]);
        i += 1;
    }
    assert(r@ =~= in_order(s@, keys@));
    r
}

fn sorted_up(s: &Vec<Src>) -> (r: Vec<Src>)
    ensures
        r@ == ascending(s@),
{
    let mut keys: Vec<u64> = Vec::new();
    let mut i: usize = 0;
    while i < s.len()
        invariant
            i <= s@.len(),
            keys@.len() == i,
            forall|k: int| 0 <= k < i ==> #[trigger] keys@[k] == s@[k].worth(),
        decreases s@.len() - i,
    {
        keys.push(s[i].value());
        i += 1;
    }
    assert(keys@ =~= rising(s@));
    sorted(s, &keys)
}

fn sorted_down(s: &Vec<Src>) -> (r: Vec<Src>)
    ensures
        r@ == descending(s@),
{
    let mut keys: Vec<u64> = Vec::new();
    let mut i: usize = 0;
    while i < s.len()
        invariant
            i <= s@.len(),
            keys@.len() == i,
            forall|k: int|
                0 <= k < i ==> #[trigger] keys@[k] == (u64::MAX - s@[k].worth()) as u64,
        decreases s@.len() - i,
    {
        keys.push(u64::MAX - s[i].value());
        i += 1;
    }
    assert(keys@ =~= falling(s@));
    sorted(s, &keys)
}

/// The length of the shortest prefix, of `k` sources or more, that is worth
/// `amount`; all of them where none is.
pub open spec fn cover_from(s: Seq<Src>, amount: u64, k: int) -> int
    decreases s.len() - k,
{
    if k < 0 || k >= s.len() || sum_of(s.take(k)) >= amount {
        k
    } else {
        cover_from(s, amount, k + 1)
    }
}

/// The fewest largest notes that cover the amount; all where none do.
pub open spec fn gathered(v: Seq<u64>, asset: u16, amount: u64) -> Seq<Src> {
    let d = descending(holdings(v, asset));
    d.take(cover_from(d, amount, 0))
}

/// What the two largest sources are worth together.
pub open spec fn top_two(s: Seq<Src>) -> nat {
    let n = s.len();
    if n == 0 {
        0
    } else if n == 1 {
        s[0].worth() as nat
    } else {
        (ascending(s)[n - 1].worth() + ascending(s)[n - 2].worth()) as nat
    }
}

/// The source that stands for the output of merge `k`.
pub open spec fn merged(a: Src, b: Src, k: nat, asset: u16) -> Src {
    Src::Made { step: k as usize, out: 0, value: (a.worth() + b.worth()) as u64, asset }
}

/// The two smallest sources merged until the two largest cover the amount: what
/// is left to pay with, and the pairs merged.
pub open spec fn merge_down(
    chosen: Seq<Src>,
    pairs: Seq<(Src, Src)>,
    asset: u16,
    amount: u64,
) -> (Seq<Src>, Seq<(Src, Src)>)
    decreases chosen.len(),
{
    if chosen.len() <= 2 || top_two(chosen) >= amount {
        (chosen, pairs)
    } else {
        let up = ascending(chosen);
        if up.len() != chosen.len() {
            (chosen, pairs)
        } else {
            merge_down(
                up.skip(2).push(merged(up[0], up[1], pairs.len(), asset)),
                pairs.push((up[0], up[1])),
                asset,
                amount,
            )
        }
    }
}

/// The sources cover the amount, by less than `m`, and each is worth `m`.
pub open spec fn tight(chosen: Seq<Src>, amount: u64, m: nat) -> bool {
    &&& amount <= sum_of(chosen) < amount + m
    &&& forall|i: int| 0 <= i < chosen.len() ==> (#[trigger] chosen[i]).worth() >= m
}

pub proof fn lemma_ascending(s: Seq<Src>)
    ensures
        ascending(s).len() == s.len(),
        sum_of(ascending(s)) == sum_of(s),
        forall|i: int, j: int|
            0 <= i < j < s.len() ==> (#[trigger] ascending(s)[i]).worth() <= (
            #[trigger] ascending(s)[j]).worth(),
        forall|i: int| 0 <= i < s.len() ==> #[trigger] s.contains(ascending(s)[i]),
{
    let keys = rising(s);
    lemma_order(keys);
    lemma_sum_in_order(s, keys);
    assert forall|i: int, j: int| 0 <= i < j < s.len() implies (#[trigger] ascending(s)[i]).worth()
        <= (#[trigger] ascending(s)[j]).worth() by {
        assert(keys[order(keys)[i]] <= keys[order(keys)[j]]);
    }
    assert forall|i: int| 0 <= i < s.len() implies #[trigger] s.contains(ascending(s)[i]) by {
        assert(ascending(s)[i] == s[order(keys)[i]]);
    }
}

/// Where a tight choice is of two sources or fewer they cover the amount
/// together, and where it is of more the two largest do not.
pub proof fn lemma_tight_top(chosen: Seq<Src>, amount: u64, m: nat)
    requires
        tight(chosen, amount, m),
    ensures
        chosen.len() <= 2 <==> top_two(chosen) >= amount,
        chosen.len() <= 2 ==> top_two(chosen) == sum_of(chosen),
{
    let n = chosen.len() as int;
    let up = ascending(chosen);
    lemma_ascending(chosen);
    if n == 1 {
        lemma_sum_one(chosen);
    } else if n == 2 {
        lemma_sum_two(up);
    } else if n >= 3 {
        lemma_sum_split(up, n - 2);
        lemma_sum_two(up.skip(n - 2));
        lemma_sum_has(up.take(n - 2), 0);
        assert(chosen.contains(up[0]));
        assert(up.take(n - 2)[0] == up[0]);
    }
}

/// A merge of the two smallest of a tight choice neither overflows nor loosens it.
pub proof fn lemma_tight_merge(chosen: Seq<Src>, amount: u64, m: nat, k: nat, asset: u16)
    requires
        tight(chosen, amount, m),
        chosen.len() >= 3,
    ensures
        ascending(chosen)[0].worth() + ascending(chosen)[1].worth() < amount,
        tight(
            ascending(chosen).skip(2).push(
                merged(ascending(chosen)[0], ascending(chosen)[1], k, asset),
            ),
            amount,
            m,
        ),
{
    let up = ascending(chosen);
    lemma_ascending(chosen);
    lemma_sum_split(up, 2);
    lemma_sum_two(up.take(2));
    lemma_sum_has(up.skip(2), 0);
    assert(chosen.contains(up[0]));
    assert(chosen.contains(up[1]));
    assert(chosen.contains(up[2]));
    assert(up.skip(2)[0] == up[2]);
    let next = up.skip(2).push(merged(up[0], up[1], k, asset));
    assert(next.drop_last() =~= up.skip(2));
    assert forall|i: int| 0 <= i < next.len() implies (#[trigger] next[i]).worth() >= m by {
        if i < next.len() - 1 {
            assert(next[i] == up[i + 2]);
            assert(chosen.contains(up[i + 2]));
        }
    }
}

pub proof fn lemma_sum_take_next(s: Seq<Src>, k: int)
    requires
        0 <= k < s.len(),
    ensures
        sum_of(s.take(k + 1)) == sum_of(s.take(k)) + s[k].worth(),
{
    assert(s.take(k + 1).drop_last() =~= s.take(k));
}

pub proof fn lemma_cover(s: Seq<Src>, amount: u64, k: int)
    requires
        0 <= k <= s.len(),
        k == 0 || sum_of(s.take(k - 1)) < amount,
    ensures
        k <= cover_from(s, amount, k) <= s.len(),
        cover_from(s, amount, k) == 0 || sum_of(s.take(cover_from(s, amount, k) - 1)) < amount,
        cover_from(s, amount, k) == s.len() || sum_of(s.take(cover_from(s, amount, k))) >= amount,
    decreases s.len() - k,
{
    if k < s.len() && sum_of(s.take(k)) < amount {
        lemma_cover(s, amount, k + 1);
    }
}

/// What is gathered is tight where it covers the amount: by its smallest note.
pub proof fn lemma_gathered(v: Seq<u64>, asset: u16, amount: u64) -> (m: nat)
    ensures
        sum_of(gathered(v, asset, amount)) >= amount ==> tight(
            gathered(v, asset, amount),
            amount,
            m,
        ),
        m <= u64::MAX,
        forall|i: int|
            0 <= i < gathered(v, asset, amount).len() ==> holdings(v, asset).contains(
                #[trigger] gathered(v, asset, amount)[i],
            ),
{
    let h = holdings(v, asset);
    let keys = falling(h);
    let d = descending(h);
    let k = cover_from(d, amount, 0);
    let g = d.take(k);
    lemma_order(keys);
    lemma_cover(d, amount, 0);
    assert forall|i: int| 0 <= i < g.len() implies h.contains(#[trigger] g[i]) by {
        assert(g[i] == h[order(keys)[i]]);
    }
    if k == 0 {
        assert(g =~= Seq::empty());
        1
    } else {
        let m = d[k - 1].worth() as nat;
        lemma_sum_take_next(d, k - 1);
        assert forall|i: int| 0 <= i < g.len() implies (#[trigger] g[i]).worth() >= m by {
            if i < k - 1 {
                assert(keys[order(keys)[i]] <= keys[order(keys)[k - 1]]);
                assert(d[i] == h[order(keys)[i]]);
                assert(d[k - 1] == h[order(keys)[k - 1]]);
            }
        }
        m
    }
}

/// A source that stands for a merge's output, at the place its step gets.
pub open spec fn placed(src: Src, base: nat) -> Src {
    match src {
        Src::Held(_) => src,
        Src::Made { step, out, value, asset } => Src::Made {
            step: (step + base) as usize,
            out,
            value,
            asset,
        },
    }
}

pub open spec fn later(a: nat, b: nat) -> nat {
    if a >= b {
        a
    } else {
        b
    }
}

/// The step of merge `k`, after the steps before it.
pub open spec fn merge_model(
    pairs: Seq<(Src, Src)>,
    fees: Seq<Src>,
    steps: Seq<StepModel>,
    base: nat,
    shape: L2ShapeTag,
    tariff: u64,
    k: int,
) -> StepModel {
    let a = placed(pairs[k].0, base);
    let b = placed(pairs[k].1, base);
    StepModel {
        round: later(later(ready(a, steps), ready(b, steps)), ready(fees[k], steps)),
        shape,
        fee: tariff,
        kind: KindModel::Merge { first: a, second: b, fee: fees[k] },
        outputs: ((a.worth() + b.worth()) as u64, 0),
    }
}

/// The steps with the first `k` merges behind them.
pub open spec fn with_merges(
    pairs: Seq<(Src, Src)>,
    fees: Seq<Src>,
    start: Seq<StepModel>,
    shape: L2ShapeTag,
    tariff: u64,
    k: int,
) -> Seq<StepModel>
    decreases k,
{
    if k <= 0 {
        start
    } else {
        let steps = with_merges(pairs, fees, start, shape, tariff, k - 1);
        steps.push(merge_model(pairs, fees, steps, start.len(), shape, tariff, k - 1))
    }
}

/// The last of the rounds from which each source can be spent.
pub open spec fn all_ready(s: Seq<Src>, steps: Seq<StepModel>) -> nat
    decreases s.len(),
{
    if s.len() == 0 {
        0
    } else {
        later(all_ready(s.drop_last(), steps), ready(s.last(), steps))
    }
}

pub open spec fn all_placed(s: Seq<Src>, base: nat) -> Seq<Src> {
    Seq::new(s.len(), |i: int| placed(s[i], base))
}

/// The payment of `amount` with the sources `inputs` and a fee note.
pub open spec fn pay_model(
    inputs: Seq<Src>,
    fee: Src,
    steps: Seq<StepModel>,
    shape: L2ShapeTag,
    tariff: u64,
    amount: u64,
) -> StepModel {
    StepModel {
        round: later(all_ready(inputs, steps), ready(fee, steps)),
        shape,
        fee: tariff,
        kind: KindModel::Pay { inputs, fee: Some(fee) },
        outputs: (amount, (sum_of(inputs) - amount) as u64),
    }
}

/// The payment of `amount` in asset 0 from one held note, which pays its fee.
pub open spec fn own_fee_model(v: Seq<u64>, b: int, amount: u64, s_tier: u64) -> StepModel {
    StepModel {
        round: 0,
        shape: L2ShapeTag::S,
        fee: s_tier,
        kind: KindModel::Pay { inputs: seq![holdings(v, 0)[b]], fee: None },
        outputs: (amount, (v[b] - capped(amount, s_tier)) as u64),
    }
}

/// The sum, or the greatest value where it does not fit.
pub open spec fn capped(a: u64, b: u64) -> u64 {
    if a + b > u64::MAX {
        u64::MAX
    } else {
        (a + b) as u64
    }
}

/// Why nothing can be planned.
#[allow(inconsistent_fields)]
pub enum PlanFault {
    /// No asset-0 note reaches `need`.
    NoCover { need: u64, largest: u64 },
    /// All notes of the asset hold `total`.
    Short { total: nat },
    /// Fee notes needed, held, and that can be made.
    Fees { needed: nat, held: nat, made: nat },
}

/// What the payment spends of its asset, and the pairs merged before: one
/// covering note, or what the gathered ones merge down to.
pub open spec fn chosen_for(v: Seq<u64>, asset: u16, amount: u64) -> (Seq<Src>, Seq<(Src, Src)>) {
    match least(v, amount) {
        Some(b) => (seq![holdings(v, asset)[b]], Seq::empty()),
        None => merge_down(gathered(v, asset, amount), Seq::empty(), asset, amount),
    }
}

/// The fee notes held, as far as they are needed.
pub open spec fn stock(f: Seq<u64>, tariff: u64, needed: nat) -> Seq<Src> {
    let all = exact_to(f, tariff, f.len() as int);
    if all.len() <= needed {
        all
    } else {
        all.take(needed as int)
    }
}

/// The rounds from which fee notes can be spent, as keys to order them by.
pub open spec fn by_ready(fees: Seq<Src>, steps: Seq<StepModel>) -> Seq<u64> {
    Seq::new(fees.len(), |i: int| ready(fees[i], steps) as u64)
}

/// The fee notes of a plan in the order they are spent: the earliest ready first.
pub open spec fn fees_of(stock: Seq<Src>, st: SplitState) -> Seq<Src> {
    in_order(stock + st.made, by_ready(stock + st.made, st.steps))
}

/// The steps of a payment of `amount` of an asset other than 0, once what it
/// spends and its fee notes are known.
pub open spec fn laid_out(
    chosen: (Seq<Src>, Seq<(Src, Src)>),
    fees: Seq<Src>,
    splits: Seq<StepModel>,
    shape: L2ShapeTag,
    tariff: u64,
    amount: u64,
) -> Seq<StepModel> {
    let n = chosen.1.len() as int;
    let steps = with_merges(chosen.1, fees, splits, shape, tariff, n);
    steps.push(
        pay_model(all_placed(chosen.0, splits.len()), fees[n], steps, shape, tariff, amount),
    )
}

/// The plan of a send over the values of the spendable notes: `f` of asset 0,
/// `v` of the asset sent.
pub open spec fn planned(
    f: Seq<u64>,
    v: Seq<u64>,
    asset: u16,
    amount: u64,
    shape: L2ShapeTag,
    tiers: Tiers,
) -> Result<Seq<StepModel>, PlanFault> {
    if asset == 0 {
        let need = capped(amount, tiers.s);
        match least(f, need) {
            None => Err(PlanFault::NoCover { need, largest: greatest(f) }),
            Some(b) => Ok(seq![own_fee_model(f, b, amount, tiers.s)]),
        }
    } else {
        let tariff = tiers.tier(shape);
        if least(v, amount) is None && sum_of(gathered(v, asset, amount)) < amount {
            Err(PlanFault::Short { total: sum_of(gathered(v, asset, amount)) })
        } else {
            let chosen = chosen_for(v, asset, amount);
            let needed = chosen.1.len() + 1;
            let held = stock(f, tariff, needed);
            match splits(
                split_start(f, tariff, Seq::empty()),
                tariff,
                tiers.s,
                (needed - held.len()) as nat,
            ) {
                Err(made) => Err(PlanFault::Fees { needed, held: held.len(), made }),
                Ok(st) => Ok(
                    laid_out(chosen, fees_of(held, st), st.steps, shape, tariff, amount),
                ),
            }
        }
    }
}

/// The value of an output of a step.
pub open spec fn output(step: StepModel, out: usize) -> u64 {
    if out == 0 {
        step.outputs.0
    } else {
        step.outputs.1
    }
}

/// The source of a fee split.
pub open spec fn split_source(step: StepModel) -> Src {
    step.kind->source
}

/// An asset-0 note that is held, or that one of the steps makes.
pub open spec fn fee_known(src: Src, f: Seq<u64>, steps: Seq<StepModel>) -> bool {
    &&& src.of_asset() == 0
    &&& match src {
        Src::Held(n) => n.at < f.len() && n.value == f[n.at as int],
        Src::Made { step, out, value, .. } => step < steps.len() && out <= 1 && value == output(
            steps[step as int],
            out,
        ),
    }
}

/// A note that a fee split may spend: known, and no held fee note.
pub open spec fn splittable(src: Src, f: Seq<u64>, steps: Seq<StepModel>, tariff: u64) -> bool {
    fee_known(src, f, steps) && (src is Held ==> src.worth() != tariff)
}

/// Step `i` is a fee split that balances, of a note that landed before.
pub open spec fn sound_split(
    steps: Seq<StepModel>,
    i: int,
    f: Seq<u64>,
    tariff: u64,
    s_tier: u64,
) -> bool {
    let st = steps[i];
    &&& st.kind is FeeSplit && st.kind->tariff == tariff
    &&& st.shape == L2ShapeTag::S && st.fee == s_tier
    &&& st.outputs.0 == tariff
    &&& split_source(st).worth() == st.outputs.0 + st.outputs.1 + st.fee
    &&& splittable(split_source(st), f, steps.take(i), tariff)
    &&& st.round == ready(split_source(st), steps)
}

/// What holds throughout a run of fee splits: every step is sound, every note
/// is known, and none is there twice.
pub open spec fn sound_splits(st: SplitState, f: Seq<u64>, tariff: u64, s_tier: u64) -> bool {
    &&& st.steps.len() <= st.made.len()
    &&& forall|i: int|
        0 <= i < st.steps.len() ==> #[trigger] sound_split(st.steps, i, f, tariff, s_tier)
    &&& forall|i: int|
        0 <= i < st.pool.len() ==> splittable((#[trigger] st.pool[i]).0, f, st.steps, tariff)
            && st.pool[i].1 == ready(st.pool[i].0, st.steps)
    &&& forall|i: int|
        0 <= i < st.made.len() ==> (#[trigger] st.made[i]) is Made && fee_known(
            st.made[i],
            f,
            st.steps,
        ) && st.made[i].worth() == tariff
    &&& forall|i: int, j: int|
        0 <= i < j < st.steps.len() ==> split_source(#[trigger] st.steps[i]) != split_source(
            #[trigger] st.steps[j],
        )
    &&& forall|i: int, j: int|
        0 <= i < st.pool.len() && 0 <= j < st.steps.len() ==> (#[trigger] st.pool[i]).0
            != split_source(#[trigger] st.steps[j])
    &&& forall|i: int, j: int|
        0 <= i < st.made.len() && 0 <= j < st.steps.len() ==> #[trigger] st.made[i]
            != split_source(#[trigger] st.steps[j])
    &&& forall|i: int, j: int|
        0 <= i < j < st.pool.len() ==> (#[trigger] st.pool[i]).0 != (#[trigger] st.pool[j]).0
    &&& forall|i: int, j: int|
        0 <= i < j < st.made.len() ==> #[trigger] st.made[i] != #[trigger] st.made[j]
    &&& forall|i: int, j: int|
        0 <= i < st.pool.len() && 0 <= j < st.made.len() ==> (#[trigger] st.pool[i]).0
            != #[trigger] st.made[j]
}

/// An output of the step at `at`.
pub open spec fn made_by(src: Src, at: int) -> bool {
    src matches Src::Made { step, .. } && step == at
}

#[verifier::rlimit(60)]
proof fn lemma_split_once(
    st: SplitState,
    k: int,
    f: Seq<u64>,
    tariff: u64,
    s_tier: u64,
    deficit: nat,
)
    requires
        sound_splits(st, f, tariff, s_tier),
        st.made.len() < deficit <= usize::MAX,
        0 <= k < st.pool.len(),
        st.pool[k].0.worth() >= tariff + s_tier,
    ensures
        sound_splits(split_once(st, k, tariff, s_tier, deficit), f, tariff, s_tier),
        split_once(st, k, tariff, s_tier, deficit).made.len() <= deficit,
        split_once(st, k, tariff, s_tier, deficit).made.len() > st.made.len(),
{
    let next = split_once(st, k, tariff, s_tier, deficit);
    let at = st.steps.len() as int;
    let source = st.pool[k].0;
    let last = st.pool.len() - 1;
    assert forall|j: int| 0 <= j < at implies #[trigger] next.steps[j] == st.steps[j] by {}
    assert(split_source(next.steps[at]) == source);
    assert forall|i: int| 0 <= i < next.steps.len() implies #[trigger] sound_split(
        next.steps,
        i,
        f,
        tariff,
        s_tier,
    ) by {
        if i < at {
            assert(sound_split(st.steps, i, f, tariff, s_tier));
            assert(next.steps.take(i) =~= st.steps.take(i));
        } else {
            assert(next.steps.take(i) =~= st.steps);
        }
    }
    // Every entry of the next pool but a fresh one is an entry of the pool.
    assert forall|i: int| 0 <= i < last implies #[trigger] next.pool[i] == (if i == k {
        st.pool[last]
    } else {
        st.pool[i]
    }) by {}
    assert forall|i: int| 0 <= i < next.pool.len() implies splittable(
        (#[trigger] next.pool[i]).0,
        f,
        next.steps,
        tariff,
    ) && next.pool[i].1 == ready(next.pool[i].0, next.steps) by {
        if i < last {
            let o = if i == k {
                last
            } else {
                i
            };
            assert(splittable(st.pool[o].0, f, st.steps, tariff));
        }
    }
    assert forall|i: int| 0 <= i < next.made.len() implies (#[trigger] next.made[i]) is Made
        && fee_known(next.made[i], f, next.steps) && next.made[i].worth() == tariff by {
        if i < st.made.len() {
            assert(next.made[i] == st.made[i]);
        }
    }
    // Nothing in hand before was the output of the new step.
    assert forall|i: int| 0 <= i < st.pool.len() implies !made_by((#[trigger] st.pool[i]).0, at) by {}
    assert forall|i: int| 0 <= i < st.made.len() implies !made_by(#[trigger] st.made[i], at) by {}
    assert forall|i: int| 0 <= i < st.steps.len() implies !made_by(
        split_source(#[trigger] st.steps[i]),
        at,
    ) by {
        assert(sound_split(st.steps, i, f, tariff, s_tier));
    }
    assert forall|i: int| last <= i < next.pool.len() implies made_by((#[trigger] next.pool[i]).0, at) by {}
    assert forall|i: int| st.made.len() <= i < next.made.len() implies made_by(
        #[trigger] next.made[i],
        at,
    ) by {}
    assert forall|i: int, j: int| 0 <= i < j < next.steps.len() implies split_source(
        #[trigger] next.steps[i],
    ) != split_source(#[trigger] next.steps[j]) by {
        if j == at {
            assert(st.pool[k].0 != split_source(st.steps[i]));
        }
    }
    assert forall|i: int, j: int| 0 <= i < next.pool.len() && 0 <= j < next.steps.len() implies (
    #[trigger] next.pool[i]).0 != split_source(#[trigger] next.steps[j]) by {
        if i < last {
            let o = if i == k {
                last
            } else {
                i
            };
            assert(next.pool[i] == st.pool[o]);
            if j < at {
                assert(st.pool[o].0 != split_source(st.steps[j]));
            } else {
                assert(o != k);
                assert(st.pool[o].0 != st.pool[k].0);
            }
        } else if j < at {
            assert(!made_by(split_source(st.steps[j]), at));
        } else {
            assert(!made_by(st.pool[k].0, at));
        }
    }
    assert forall|i: int, j: int| 0 <= i < next.made.len() && 0 <= j < next.steps.len() implies
        #[trigger] next.made[i] != split_source(#[trigger] next.steps[j]) by {
        if i < st.made.len() {
            assert(next.made[i] == st.made[i]);
            if j < at {
                assert(st.made[i] != split_source(st.steps[j]));
            } else {
                assert(st.pool[k].0 != st.made[i]);
            }
        } else if j < at {
            assert(!made_by(split_source(st.steps[j]), at));
        } else {
            assert(!made_by(st.pool[k].0, at));
        }
    }
    assert forall|i: int, j: int| 0 <= i < j < next.pool.len() implies (#[trigger] next.pool[i]).0
        != (#[trigger] next.pool[j]).0 by {
        let o = if i == k {
            last
        } else {
            i
        };
        if j < last {
            let p = if j == k {
                last
            } else {
                j
            };
            assert(next.pool[i] == st.pool[o] && next.pool[j] == st.pool[p]);
            assert(st.pool[o].0 != st.pool[p].0);
        } else if i < last {
            assert(next.pool[i] == st.pool[o]);
            assert(!made_by(st.pool[o].0, at));
        }
    }
    assert forall|i: int, j: int| 0 <= i < j < next.made.len() implies #[trigger] next.made[i]
        != #[trigger] next.made[j] by {
        if j < st.made.len() {
            assert(next.made[i] == st.made[i] && next.made[j] == st.made[j]);
        } else if i < st.made.len() {
            assert(next.made[i] == st.made[i]);
            assert(!made_by(st.made[i], at));
        }
    }
    assert forall|i: int, j: int| 0 <= i < next.pool.len() && 0 <= j < next.made.len() implies (
    #[trigger] next.pool[i]).0 != #[trigger] next.made[j] by {
        if i < last {
            let o = if i == k {
                last
            } else {
                i
            };
            assert(next.pool[i] == st.pool[o]);
            if j < st.made.len() {
                assert(next.made[j] == st.made[j]);
                assert(st.pool[o].0 != st.made[j]);
            } else {
                assert(!made_by(st.pool[o].0, at));
            }
        } else if j < st.made.len() {
            assert(next.made[j] == st.made[j]);
            assert(!made_by(st.made[j], at));
        }
    }
}

/// A run of fee splits that succeeds makes exactly the fee notes asked for, and
/// is sound throughout.
pub proof fn lemma_splits(
    st: SplitState,
    f: Seq<u64>,
    tariff: u64,
    s_tier: u64,
    deficit: nat,
)
    requires
        sound_splits(st, f, tariff, s_tier),
        st.made.len() <= deficit <= usize::MAX,
    ensures
        match splits(st, tariff, s_tier, deficit) {
            Ok(end) => end.made.len() == deficit && sound_splits(end, f, tariff, s_tier),
            Err(made) => made < deficit,
        },
    decreases deficit - st.made.len(),
{
    if st.made.len() < deficit {
        let need = tariff + s_tier;
        lemma_split_pick(st.pool, need, st.pool.len() as int);
        if let Some(k) = split_pick(st.pool, need, st.pool.len() as int) {
            lemma_split_once(st, k, f, tariff, s_tier, deficit);
            lemma_splits(split_once(st, k, tariff, s_tier, deficit), f, tariff, s_tier, deficit);
        }
    }
}

proof fn lemma_others(f: Seq<u64>, tariff: u64, n: int)
    requires
        0 <= n <= f.len() <= usize::MAX,
    ensures
        forall|i: int|
            0 <= i < others_to(f, tariff, n).len() ==> {
                let e = #[trigger] others_to(f, tariff, n)[i];
                e.1 == 0 && e.0 is Held && e.0.of_asset() == 0 && e.0->Held_0.at < n
                    && e.0.worth() == f[e.0->Held_0.at as int] && e.0.worth() != tariff
            },
        forall|i: int, j: int|
            0 <= i < j < others_to(f, tariff, n).len() ==> (#[trigger] others_to(f, tariff, n)[i]).0
                != (#[trigger] others_to(f, tariff, n)[j]).0,
    decreases n,
{
    if n > 0 {
        lemma_others(f, tariff, n - 1);
    }
}

/// Fee splits start soundly.
pub proof fn lemma_split_start(f: Seq<u64>, tariff: u64, s_tier: u64)
    requires
        f.len() <= usize::MAX,
    ensures
        sound_splits(split_start(f, tariff, Seq::empty()), f, tariff, s_tier),
{
    lemma_others(f, tariff, f.len() as int);
}

/// A note of the asset that is held, or that one of the first `k` merges makes.
pub open spec fn asset_known(src: Src, v: Seq<u64>, asset: u16, pairs: Seq<(Src, Src)>, k: int) -> bool {
    &&& src.of_asset() == asset
    &&& match src {
        Src::Held(n) => n.at < v.len() && n.value == v[n.at as int],
        Src::Made { step, out, value, .. } => step < k && out == 0 && value == pairs[step as int].0.worth()
            + pairs[step as int].1.worth(),
    }
}

pub open spec fn in_pair(src: Src, pair: (Src, Src)) -> bool {
    src == pair.0 || src == pair.1
}

/// What holds throughout merging: every note is known before it is spent, its
/// value fits, and none is there twice.
pub open spec fn sound_merges(
    chosen: Seq<Src>,
    pairs: Seq<(Src, Src)>,
    v: Seq<u64>,
    asset: u16,
) -> bool {
    &&& pairs.len() + chosen.len() <= usize::MAX
    &&& forall|i: int|
        0 <= i < chosen.len() ==> asset_known(
            #[trigger] chosen[i],
            v,
            asset,
            pairs,
            pairs.len() as int,
        )
    &&& forall|j: int|
        0 <= j < pairs.len() ==> asset_known((#[trigger] pairs[j]).0, v, asset, pairs, j)
            && asset_known(pairs[j].1, v, asset, pairs, j) && pairs[j].0.worth()
            + pairs[j].1.worth() <= u64::MAX && pairs[j].0 != pairs[j].1
    &&& forall|i: int, j: int|
        0 <= i < j < chosen.len() ==> #[trigger] chosen[i] != #[trigger] chosen[j]
    &&& forall|i: int, j: int|
        0 <= i < chosen.len() && 0 <= j < pairs.len() ==> !in_pair(
            #[trigger] chosen[i],
            #[trigger] pairs[j],
        )
    &&& forall|i: int, j: int|
        0 <= i < j < pairs.len() ==> !in_pair((#[trigger] pairs[i]).0, #[trigger] pairs[j])
            && !in_pair(pairs[i].1, pairs[j])
}

pub proof fn lemma_distinct_in_order(s: Seq<Src>, keys: Seq<u64>)
    requires
        s.len() == keys.len(),
        forall|i: int, j: int| 0 <= i < j < s.len() ==> #[trigger] s[i] != #[trigger] s[j],
    ensures
        forall|i: int, j: int|
            0 <= i < j < s.len() ==> #[trigger] in_order(s, keys)[i] != #[trigger] in_order(s, keys)[j],
        in_order(s, keys).len() == s.len(),
{
    lemma_order(keys);
    let o = order(keys);
    assert forall|i: int, j: int| 0 <= i < j < s.len() implies #[trigger] in_order(s, keys)[i]
        != #[trigger] in_order(s, keys)[j] by {
        assert(o[i] != o[j]);
        if o[i] < o[j] {
            assert(s[o[i]] != s[o[j]]);
        } else {
            assert(s[o[j]] != s[o[i]]);
        }
    }
}

#[verifier::rlimit(60)]
proof fn lemma_merge_once(
    chosen: Seq<Src>,
    pairs: Seq<(Src, Src)>,
    v: Seq<u64>,
    asset: u16,
    amount: u64,
    m: nat,
)
    requires
        sound_merges(chosen, pairs, v, asset),
        tight(chosen, amount, m),
        chosen.len() >= 3,
    ensures
        sound_merges(
            ascending(chosen).skip(2).push(
                merged(ascending(chosen)[0], ascending(chosen)[1], pairs.len(), asset),
            ),
            pairs.push((ascending(chosen)[0], ascending(chosen)[1])),
            v,
            asset,
        ),
{
    let up = ascending(chosen);
    let n = pairs.len() as int;
    let one = merged(up[0], up[1], pairs.len(), asset);
    let next = up.skip(2).push(one);
    let more = pairs.push((up[0], up[1]));
    lemma_ascending(chosen);
    lemma_distinct_in_order(chosen, rising(chosen));
    lemma_tight_merge(chosen, amount, m, pairs.len(), asset);
    assert forall|i: int| 0 <= i < up.len() implies asset_known(#[trigger] up[i], v, asset, pairs, n)
        && !made_by(up[i], n) by {
        assert(chosen.contains(up[i]));
    }
    assert forall|i: int, j: int| 0 <= i < up.len() && 0 <= j < n implies !in_pair(
        #[trigger] up[i],
        #[trigger] pairs[j],
    ) by {
        assert(chosen.contains(up[i]));
    }
    assert forall|j: int| 0 <= j < n implies #[trigger] more[j] == pairs[j] by {}
    assert forall|i: int| 0 <= i < next.len() implies asset_known(
        #[trigger] next[i],
        v,
        asset,
        more,
        more.len() as int,
    ) by {
        if i < next.len() - 1 {
            assert(next[i] == up[i + 2]);
            assert(asset_known(up[i + 2], v, asset, pairs, n));
        }
    }
    assert forall|j: int| 0 <= j < more.len() implies asset_known(
        (#[trigger] more[j]).0,
        v,
        asset,
        more,
        j,
    ) && asset_known(more[j].1, v, asset, more, j) && more[j].0.worth() + more[j].1.worth()
        <= u64::MAX && more[j].0 != more[j].1 by {
        if j < n {
            assert(asset_known(pairs[j].0, v, asset, pairs, j));
        } else {
            assert(asset_known(up[0], v, asset, pairs, n));
            assert(asset_known(up[1], v, asset, pairs, n));
        }
    }
    assert forall|i: int, j: int| 0 <= i < j < next.len() implies #[trigger] next[i]
        != #[trigger] next[j] by {
        assert(next[i] == up[i + 2]);
        if j < next.len() - 1 {
            assert(next[j] == up[j + 2]);
        } else {
            assert(!made_by(up[i + 2], n));
        }
    }
    assert forall|i: int, j: int| 0 <= i < next.len() && 0 <= j < more.len() implies !in_pair(
        #[trigger] next[i],
        #[trigger] more[j],
    ) by {
        if i < next.len() - 1 {
            assert(next[i] == up[i + 2]);
            if j < n {
                assert(!in_pair(up[i + 2], pairs[j]));
            } else {
                assert(up[0] != up[i + 2] && up[1] != up[i + 2]);
            }
        } else if j < n {
            assert(asset_known(pairs[j].0, v, asset, pairs, j));
            assert(asset_known(pairs[j].1, v, asset, pairs, j));
        } else {
            assert(!made_by(up[0], n) && !made_by(up[1], n));
        }
    }
    assert forall|i: int, j: int| 0 <= i < j < more.len() implies !in_pair(
        (#[trigger] more[i]).0,
        #[trigger] more[j],
    ) && !in_pair(more[i].1, more[j]) by {
        if j == n {
            assert(!in_pair(up[0], pairs[i]));
            assert(!in_pair(up[1], pairs[i]));
        }
    }
}

/// Merging a tight choice down leaves two sources at most, soundly.
pub proof fn lemma_merge_down(
    chosen: Seq<Src>,
    pairs: Seq<(Src, Src)>,
    v: Seq<u64>,
    asset: u16,
    amount: u64,
    m: nat,
)
    requires
        sound_merges(chosen, pairs, v, asset),
        tight(chosen, amount, m),
    ensures
        sound_merges(
            merge_down(chosen, pairs, asset, amount).0,
            merge_down(chosen, pairs, asset, amount).1,
            v,
            asset,
        ),
        tight(merge_down(chosen, pairs, asset, amount).0, amount, m),
        merge_down(chosen, pairs, asset, amount).0.len() <= 2,
        chosen.len() > 0 ==> merge_down(chosen, pairs, asset, amount).0.len() > 0,
    decreases chosen.len(),
{
    lemma_tight_top(chosen, amount, m);
    if chosen.len() > 2 {
        let up = ascending(chosen);
        lemma_ascending(chosen);
        lemma_merge_once(chosen, pairs, v, asset, amount, m);
        lemma_tight_merge(chosen, amount, m, pairs.len(), asset);
        lemma_merge_down(
            up.skip(2).push(merged(up[0], up[1], pairs.len(), asset)),
            pairs.push((up[0], up[1])),
            v,
            asset,
            amount,
            m,
        );
    }
}

/// What a payment spends of its asset is sound: two notes at most, covering the
/// amount by less than a note's value.
pub proof fn lemma_chosen(v: Seq<u64>, asset: u16, amount: u64)
    requires
        v.len() <= usize::MAX,
        least(v, amount) is Some || sum_of(gathered(v, asset, amount)) >= amount,
    ensures
        ({
            let c = chosen_for(v, asset, amount);
            &&& sound_merges(c.0, c.1, v, asset)
            &&& c.0.len() <= 2
            &&& amount <= sum_of(c.0) <= amount + u64::MAX
            &&& v.len() > 0 && amount > 0 ==> c.0.len() > 0
        }),
{
    lemma_least(v, amount, v.len() as int);
    let c = chosen_for(v, asset, amount);
    match least(v, amount) {
        Some(b) => {
            lemma_sum_one(c.0);
        },
        None => {
            let g = gathered(v, asset, amount);
            let h = holdings(v, asset);
            let m = lemma_gathered(v, asset, amount);
            lemma_distinct_in_order(h, falling(h));
            lemma_cover(descending(h), amount, 0);
            assert forall|i: int| 0 <= i < g.len() implies asset_known(
                #[trigger] g[i],
                v,
                asset,
                Seq::empty(),
                0,
            ) by {
                assert(h.contains(g[i]));
            }
            assert forall|i: int, j: int| 0 <= i < j < g.len() implies #[trigger] g[i]
                != #[trigger] g[j] by {
                assert(descending(h)[i] != descending(h)[j]);
            }
            lemma_merge_down(g, Seq::empty(), v, asset, amount, m);
            if amount > 0 && g.len() == 0 {
                assert(sum_of(g) == 0);
            }
        },
    }
}

/// What a payment spends of its asset, and the pairs to merge before.
type Chosen = (Vec<Src>, Vec<(Src, Src)>);

/// Chooses what a payment spends of its asset; the total where it is short.
fn choose_notes(notes: &[OwnedL2Note], asset: u16, amount: u64) -> (r: Result<Chosen, u128>)
    ensures
        ({
            let v = values(notes@);
            match r {
                Ok(c) => (least(v, amount) is Some || sum_of(gathered(v, asset, amount)) >= amount)
                    && (c.0@, c.1@) == chosen_for(v, asset, amount),
                Err(total) => least(v, amount) is None && total == sum_of(
                    gathered(v, asset, amount),
                ) && total < amount,
            }
        }),
{
    let ghost v = values(notes@);
    if let Some(b) = smallest_covering(notes, amount) {
        let one: Vec<Src> = vec![Src::Held(HeldNote { at: b, value: notes[b].value, asset })];
        let none: Vec<(Src, Src)> = Vec::new();
        assert(one@ =~= seq![holdings(v, asset)[b as int]]);
        assert(none@ =~= Seq::empty());
        return Ok((one, none));
    }
    let mut all: Vec<Src> = Vec::new();
    let mut i: usize = 0;
    while i < notes.len()
        invariant
            i <= notes@.len(),
            v == values(notes@),
            all@ == holdings(v, asset).take(i as int),
        decreases notes@.len() - i,
    {
        all.push(Src::Held(HeldNote { at: i, value: notes[i].value, asset }));
        i += 1;
        assert(holdings(v, asset).take(i as int) =~= holdings(v, asset).take(i - 1).push(
            holdings(v, asset)[i - 1],
        ));
    }
    assert(all@ =~= holdings(v, asset));
    let down = sorted_down(&all);
    let ghost d = descending(holdings(v, asset));
    let mut chosen: Vec<Src> = Vec::new();
    let mut total: u128 = 0;
    let mut k: usize = 0;
    assert(d.take(0) =~= Seq::empty());
    while k < down.len() && total < amount as u128
        invariant
            k <= down@.len(),
            down@ == d,
            chosen@ == d.take(k as int),
            total == sum_of(d.take(k as int)),
            total <= k * u64::MAX,
            cover_from(d, amount, 0) == cover_from(d, amount, k as int),
        decreases down@.len() - k,
    {
        proof {
            lemma_sum_take_next(d, k as int);
        }
        let src: Src = down[k];
        total += src.value() as u128;
        chosen.push(src);
        k += 1;
        assert(d.take(k as int) =~= d.take(k - 1).push(d[k - 1]));
    }
    assert(k == cover_from(d, amount, 0));
    assert(chosen@ == gathered(v, asset, amount));
    if total < amount as u128 {
        return Err(total);
    }
    let ghost m = lemma_gathered(v, asset, amount);
    let ghost g = chosen@;
    let mut pairs: Vec<(Src, Src)> = Vec::new();
    assert(pairs@ =~= Seq::empty());
    let mut up = sorted_up(&chosen);
    proof {
        lemma_ascending(chosen@);
        lemma_tight_top(chosen@, amount, m);
    }
    while chosen.len() > 2
        invariant
            up@ == ascending(chosen@),
            tight(chosen@, amount, m),
            chosen@.len() <= 2 <==> top_two(chosen@) >= amount,
            merge_down(g, Seq::empty(), asset, amount) == merge_down(
                chosen@,
                pairs@,
                asset,
                amount,
            ),
        decreases chosen@.len(),
    {
        proof {
            lemma_ascending(chosen@);
            lemma_tight_merge(chosen@, amount, m, pairs@.len(), asset);
        }
        let ghost before = chosen@;
        let a: Src = up[0];
        let b: Src = up[1];
        let value: u64 = a.value() + b.value();
        let step: usize = pairs.len();
        let mut next: Vec<Src> = Vec::new();
        let mut j: usize = 2;
        while j < up.len()
            invariant
                2 <= j <= up@.len(),
                next@ == up@.subrange(2, j as int),
            decreases up@.len() - j,
        {
            next.push(up[j]);
            j += 1;
            assert(up@.subrange(2, j as int) =~= up@.subrange(2, j - 1).push(up@[j - 1]));
        }
        assert(next@ =~= up@.skip(2));
        next.push(Src::Made { step, out: 0, value, asset });
        pairs.push((a, b));
        chosen = next;
        up = sorted_up(&chosen);
        proof {
            assert(chosen@ == ascending(before).skip(2).push(
                merged(ascending(before)[0], ascending(before)[1], step as nat, asset),
            ));
            lemma_ascending(chosen@);
            lemma_tight_top(chosen@, amount, m);
        }
    }
    Ok((chosen, pairs))
}

/// The first round in which a source can be spent.
fn ready_at(src: &Src, steps: &Vec<Step>) -> (r: usize)
    requires
        src matches Src::Made { step, .. } ==> step < steps@.len(),
        forall|i: int| 0 <= i < steps@.len() ==> (#[trigger] steps@[i]).round <= i,
    ensures
        r == ready(*src, models(steps@)),
        r <= steps@.len(),
{
    assert(steps@.len() == steps.len());
    match src {
        Src::Held(_) => 0,
        Src::Made { step, .. } => steps[*step].round + 1,
    }
}

fn later_of(a: usize, b: usize) -> (r: usize)
    ensures
        r == later(a as nat, b as nat),
        r == a || r == b,
{
    if a >= b {
        a
    } else {
        b
    }
}

/// The fee notes of exactly the tariff that the wallet holds, as far as they
/// are needed.
fn held_fees(notes: &[OwnedL2Note], tariff: u64, needed: usize) -> (r: Vec<Src>)
    ensures
        r@ == stock(values(notes@), tariff, needed as nat),
        r@.len() <= needed,
        forall|i: int| 0 <= i < r@.len() ==> #[trigger] r@[i] is Held,
{
    let ghost v = values(notes@);
    let ghost all = exact_to(v, tariff, v.len() as int);
    let mut r: Vec<Src> = Vec::new();
    let mut i: usize = 0;
    assert(r@ =~= exact_to(v, tariff, 0));
    while i < notes.len() && r.len() < needed
        invariant
            i <= notes@.len(),
            v == values(notes@),
            r@ == exact_to(v, tariff, i as int),
            r@.len() <= needed,
            forall|k: int| 0 <= k < r@.len() ==> #[trigger] r@[k] is Held,
        decreases notes@.len() - i,
    {
        let value: u64 = notes[i].value;
        if value == tariff {
            r.push(Src::Held(HeldNote { at: i, value, asset: 0 }));
        }
        i += 1;
    }
    proof {
        lemma_exact_grows(v, tariff, i as int, v.len() as int);
        assert(r@ =~= all.take(r@.len() as int));
    }
    r
}

proof fn lemma_exact_grows(v: Seq<u64>, tariff: u64, i: int, n: int)
    requires
        0 <= i <= n,
    ensures
        exact_to(v, tariff, i).len() <= exact_to(v, tariff, n).len(),
        exact_to(v, tariff, n).take(exact_to(v, tariff, i).len() as int) == exact_to(v, tariff, i),
    decreases n - i,
{
    if i < n {
        lemma_exact_grows(v, tariff, i, n - 1);
        let k = exact_to(v, tariff, i).len() as int;
        assert(exact_to(v, tariff, n).take(k) =~= exact_to(v, tariff, n - 1).take(k));
    } else {
        assert(exact_to(v, tariff, n).take(exact_to(v, tariff, n).len() as int) =~= exact_to(
            v,
            tariff,
            n,
        ));
    }
}

/// The fee notes in the order they are spent.
fn fee_order(fees: &Vec<Src>, steps: &Vec<Step>) -> (r: Vec<Src>)
    requires
        forall|i: int|
            0 <= i < fees@.len() ==> (#[trigger] fees@[i] matches Src::Made { step, .. } ==> step
                < steps@.len()),
        forall|i: int| 0 <= i < steps@.len() ==> (#[trigger] steps@[i]).round <= i,
    ensures
        r@ == in_order(fees@, by_ready(fees@, models(steps@))),
        r@.len() == fees@.len(),
{
    let mut keys: Vec<u64> = Vec::new();
    let mut i: usize = 0;
    while i < fees.len()
        invariant
            i <= fees@.len(),
            keys@.len() == i,
            forall|k: int|
                0 <= k < fees@.len() ==> (#[trigger] fees@[k] matches Src::Made { step, .. }
                    ==> step < steps@.len()),
            forall|k: int| 0 <= k < steps@.len() ==> (#[trigger] steps@[k]).round <= k,
            forall|k: int|
                0 <= k < i ==> #[trigger] keys@[k] == ready(fees@[k], models(steps@)) as u64,
        decreases fees@.len() - i,
    {
        keys.push(ready_at(&fees[i], steps) as u64);
        i += 1;
    }
    assert(keys@ =~= by_ready(fees@, models(steps@)));
    proof {
        lemma_order(keys@);
    }
    sorted(fees, &keys)
}

fn place_at(src: &Src, base: usize) -> (r: Src)
    requires
        src matches Src::Made { step, .. } ==> step + base <= usize::MAX,
    ensures
        r == placed(*src, base as nat),
{
    match src {
        Src::Held(n) => Src::Held(*n),
        Src::Made { step, out, value, asset } => Src::Made {
            step: *step + base,
            out: *out,
            value: *value,
            asset: *asset,
        },
    }
}

/// The held fee notes are asset-0 notes of exactly the tariff, each once.
pub proof fn lemma_exact(f: Seq<u64>, tariff: u64, n: int)
    requires
        0 <= n <= f.len() <= usize::MAX,
    ensures
        forall|i: int|
            0 <= i < exact_to(f, tariff, n).len() ==> {
                let e = #[trigger] exact_to(f, tariff, n)[i];
                e is Held && e.of_asset() == 0 && e->Held_0.at < n && e.worth() == tariff
                    && e.worth() == f[e->Held_0.at as int]
            },
        forall|i: int, j: int|
            0 <= i < j < exact_to(f, tariff, n).len() ==> #[trigger] exact_to(f, tariff, n)[i]
                != #[trigger] exact_to(f, tariff, n)[j],
    decreases n,
{
    if n > 0 {
        lemma_exact(f, tariff, n - 1);
    }
}

/// Where the gathered notes do not cover the amount they are all there are.
pub proof fn lemma_gathered_short(v: Seq<u64>, asset: u16, amount: u64)
    ensures
        sum_of(gathered(v, asset, amount)) < amount <==> sum_of(holdings(v, asset)) < amount,
        sum_of(holdings(v, asset)) < amount ==> sum_of(gathered(v, asset, amount)) == sum_of(
            holdings(v, asset),
        ),
{
    let h = holdings(v, asset);
    let d = descending(h);
    let k = cover_from(d, amount, 0);
    lemma_cover(d, amount, 0);
    lemma_sum_in_order(h, falling(h));
    lemma_sum_split(d, k);
    if k == d.len() {
        assert(d.take(k) =~= d);
    }
}

/// What fee notes in the order they are spent have in common with the notes
/// held and made.
pub proof fn lemma_fees(held: Seq<Src>, st: SplitState, f: Seq<u64>, tariff: u64, s_tier: u64)
    requires
        sound_splits(st, f, tariff, s_tier),
        forall|i: int| 0 <= i < held.len() ==> #[trigger] held[i] is Held,
    ensures
        fees_of(held, st).len() == held.len() + st.made.len(),
        forall|i: int|
            0 <= i < fees_of(held, st).len() ==> (held + st.made).contains(
                #[trigger] fees_of(held, st)[i],
            ),
        forall|i: int|
            0 <= i < fees_of(held, st).len() ==> (#[trigger] fees_of(held, st)[i] matches
                Src::Made { step, .. } ==> step < st.steps.len()),
{
    let all = held + st.made;
    let keys = by_ready(all, st.steps);
    lemma_order(keys);
    assert forall|i: int| 0 <= i < fees_of(held, st).len() implies all.contains(
        #[trigger] fees_of(held, st)[i],
    ) && (fees_of(held, st)[i] matches Src::Made { step, .. } ==> step < st.steps.len()) by {
        let o = order(keys)[i];
        assert(fees_of(held, st)[i] == all[o]);
        if o < held.len() {
            assert(all[o] == held[o]);
        } else {
            assert(all[o] == st.made[o - held.len()]);
        }
    }
}

/// A held note, or the output of one of the first `k` steps.
pub open spec fn made_before(src: Src, k: nat) -> bool {
    src matches Src::Made { step, .. } ==> step < k
}

/// A pair of notes that are there after `k` merges and whose values add up.
pub open spec fn mergeable(pair: (Src, Src), k: nat) -> bool {
    made_before(pair.0, k) && made_before(pair.1, k) && pair.0.worth() + pair.1.worth() <= u64::MAX
}

/// Lays out the merges and the payment behind the fee splits.
fn lay_out(
    inputs: &Vec<Src>,
    pairs: &Vec<(Src, Src)>,
    fees: &Vec<Src>,
    splits: Vec<Step>,
    shape: L2ShapeTag,
    tariff: u64,
    amount: u64,
) -> (r: Vec<Step>)
    requires
        forall|i: int| 0 <= i < inputs@.len() ==> made_before(#[trigger] inputs@[i], pairs@.len()),
        forall|i: int| 0 <= i < pairs@.len() ==> mergeable(#[trigger] pairs@[i], i as nat),
        inputs@.len() <= 2,
        amount <= sum_of(inputs@) <= amount + u64::MAX,
        fees@.len() == pairs@.len() + 1,
        forall|i: int|
            0 <= i < fees@.len() ==> made_before(#[trigger] fees@[i], splits@.len()),
        forall|i: int| 0 <= i < splits@.len() ==> (#[trigger] splits@[i]).round <= i,
    ensures
        models(r@) == laid_out(
            (inputs@, pairs@),
            fees@,
            models(splits@),
            shape,
            tariff,
            amount,
        ),
        forall|i: int| 0 <= i < r@.len() ==> (#[trigger] r@[i]).round <= i,
{
    let ghost start = models(splits@);
    let base: usize = splits.len();
    let mut steps = splits;
    let mut k: usize = 0;
    while k < pairs.len()
        invariant
            k <= pairs@.len(),
            steps@.len() == base + k,
            start.len() == base,
            forall|i: int| 0 <= i < pairs@.len() ==> mergeable(#[trigger] pairs@[i], i as nat),
            fees@.len() == pairs@.len() + 1,
            forall|i: int| 0 <= i < fees@.len() ==> made_before(#[trigger] fees@[i], base as nat),
            forall|i: int| 0 <= i < steps@.len() ==> (#[trigger] steps@[i]).round <= i,
            models(steps@) == with_merges(pairs@, fees@, start, shape, tariff, k as int),
        decreases pairs@.len() - k,
    {
        let ghost before = steps@;
        assert(mergeable(pairs@[k as int], k as nat));
        assert(made_before(fees@[k as int], base as nat));
        assert(steps@.len() == steps.len());
        let a = place_at(&pairs[k].0, base);
        let b = place_at(&pairs[k].1, base);
        let fee: Src = fees[k];
        let round: usize = later_of(
            later_of(ready_at(&a, &steps), ready_at(&b, &steps)),
            ready_at(&fee, &steps),
        );
        let value: u64 = a.value() + b.value();
        steps.push(
            Step {
                round,
                shape,
                fee: tariff,
                kind: StepKind::Merge { inputs: [a, b], fee },
                outputs: [value, 0],
            },
        );
        assert(models(steps@) =~= models(before).push(steps@.last().view()));
        k += 1;
    }
    let mut placed_inputs: Vec<Src> = Vec::new();
    let mut round: usize = ready_at(&fees[k], &steps);
    let ghost own = round;
    let mut have: u128 = 0;
    let mut i: usize = 0;
    let ghost want = all_placed(inputs@, base as nat);
    assert(want.take(0) =~= Seq::empty());
    assert(inputs@.take(0) =~= Seq::empty());
    while i < inputs.len()
        invariant
            i <= inputs@.len() <= 2,
            k == pairs@.len(),
            steps@.len() == base + k,
            forall|j: int|
                0 <= j < inputs@.len() ==> made_before(#[trigger] inputs@[j], pairs@.len()),
            forall|j: int| 0 <= j < steps@.len() ==> (#[trigger] steps@[j]).round <= j,
            want == all_placed(inputs@, base as nat),
            placed_inputs@ == want.take(i as int),
            round == later(all_ready(want.take(i as int), models(steps@)), own as nat),
            round <= steps@.len(),
            have == sum_of(want.take(i as int)),
            have <= i * u64::MAX,
        decreases inputs@.len() - i,
    {
        assert(made_before(inputs@[i as int], pairs@.len()));
        assert(steps@.len() == steps.len());
        let src = place_at(&inputs[i], base);
        assert(want.take(i + 1).drop_last() =~= want.take(i as int));
        assert(want.take(i + 1) =~= want.take(i as int).push(src));
        have += src.value() as u128;
        round = later_of(ready_at(&src, &steps), round);
        placed_inputs.push(src);
        i += 1;
    }
    assert(want.take(i as int) =~= want);
    proof {
        lemma_sum_placed(inputs@, base as nat);
    }
    let rest: u64 = (have - amount as u128) as u64;
    let ghost before = steps@;
    let fee: Src = fees[k];
    steps.push(
        Step {
            round,
            shape,
            fee: tariff,
            kind: StepKind::Pay { inputs: placed_inputs, fee: Some(fee) },
            outputs: [amount, rest],
        },
    );
    assert(models(steps@) =~= models(before).push(steps@.last().view()));
    steps
}

pub proof fn lemma_sum_placed(s: Seq<Src>, base: nat)
    ensures
        sum_of(all_placed(s, base)) == sum_of(s),
    decreases s.len(),
{
    if s.len() > 0 {
        assert(all_placed(s, base).drop_last() =~= all_placed(s.drop_last(), base));
        lemma_sum_placed(s.drop_last(), base);
    }
}

/// The refusal that names a fault.
pub open spec fn refused_as(
    e: SendRefusal,
    fault: PlanFault,
    asset: u16,
    amount: u64,
    tariff: u64,
) -> bool {
    match fault {
        PlanFault::NoCover { need, largest } => e == (SendRefusal::NoSingleNoteCovers {
            asset,
            amount: need,
            largest,
        }),
        PlanFault::Short { total } => total <= u128::MAX && e == (SendRefusal::InsufficientAsset {
            asset,
            amount,
            spendable: total as u128,
        }),
        PlanFault::Fees { needed, held, made } => needed <= usize::MAX && held <= usize::MAX
            && made <= usize::MAX && e == (SendRefusal::FeeNotesShort {
            tariff,
            needed: needed as usize,
            held: held as usize,
            splittable: made as usize,
        }),
    }
}

/// Plans a send over the wallet's notes. One asset-0 note pays an asset-0
/// amount and its own fee. Of another asset one covering note pays, or the
/// fewest largest notes do, merged to two; each merge and the payment spends a
/// fee note of exactly the tariff, and those that are missing are split off
/// first.
pub fn plan_send(
    index: &AssetIndex,
    asset: u16,
    amount: u64,
    shape: L2ShapeTag,
    tiers: Tiers,
) -> (r: Result<SendPlan, SendRefusal>)
    ensures
        ({
            let f = values(index.held(0));
            let v = values(index.held(asset));
            let tariff = tiers.tier(shape);
            match (r, planned(f, v, asset, amount, shape, tiers)) {
                (Ok(p), Ok(steps)) => p.asset == asset && p.amount == amount && models(p.steps@)
                    == steps && p.orderly(),
                (Err(e), Err(fault)) => refused_as(e, fault, asset, amount, tariff),
                _ => false,
            }
        }),
{
    let fee_notes = index.spendable(0);
    assert(fee_notes@.len() == fee_notes.len());
    let ghost f = values(index.held(0));
    if asset == 0 {
        let need: u64 = amount.saturating_add(tiers.s);
        return match smallest_covering(fee_notes, need) {
            None => Err(
                SendRefusal::NoSingleNoteCovers {
                    asset,
                    amount: need,
                    largest: largest(fee_notes),
                },
            ),
            Some(b) => {
                proof {
                    lemma_least(f, need, f.len() as int);
                }
                let value: u64 = fee_notes[b].value;
                let change: u64 = value - need;
                let inputs: Vec<Src> = vec![Src::Held(HeldNote { at: b, value, asset: 0 })];
                assert(inputs@ =~= seq![holdings(f, 0)[b as int]]);
                let steps: Vec<Step> = vec![
                    Step {
                        round: 0,
                        shape: L2ShapeTag::S,
                        fee: tiers.s,
                        kind: StepKind::Pay { inputs, fee: None },
                        outputs: [amount, change],
                    },
                ];
                assert(models(steps@) =~= seq![own_fee_model(f, b as int, amount, tiers.s)]);
                Ok(SendPlan { asset, amount, steps })
            },
        };
    }
    let tariff: u64 = tiers.of(shape);
    let notes = index.spendable(asset);
    assert(notes@.len() == notes.len());
    let ghost v = values(index.held(asset));
    match choose_notes(notes, asset, amount) {
        Err(total) => Err(SendRefusal::InsufficientAsset { asset, amount, spendable: total }),
        Ok((inputs, pairs)) => {
            proof {
                lemma_chosen(v, asset, amount);
            }
            let needed: usize = pairs.len() + 1;
            let mut fees = held_fees(fee_notes, tariff, needed);
            let held: usize = fees.len();
            let ghost stocked = fees@;
            let mut steps: Vec<Step> = Vec::new();
            assert(models(steps@) =~= Seq::empty());
            proof {
                lemma_split_start(f, tariff, tiers.s);
                lemma_splits(
                    split_start(f, tariff, Seq::empty()),
                    f,
                    tariff,
                    tiers.s,
                    (needed - held) as nat,
                );
            }
            match plan_fee_splits(fee_notes, tariff, tiers.s, needed - held, &mut steps) {
                Err(made) => Err(
                    SendRefusal::FeeNotesShort { tariff, needed, held, splittable: made },
                ),
                Ok(made) => {
                    let ghost st = SplitState {
                        pool: splits(
                            split_start(f, tariff, Seq::empty()),
                            tariff,
                            tiers.s,
                            (needed - held) as nat,
                        )->Ok_0.pool,
                        made: made@,
                        steps: models(steps@),
                    };
                    let mut i: usize = 0;
                    while i < made.len()
                        invariant
                            i <= made@.len(),
                            fees@ == stocked + made@.take(i as int),
                        decreases made@.len() - i,
                    {
                        fees.push(made[i]);
                        i += 1;
                        assert(stocked + made@.take(i as int) =~= (stocked + made@.take(
                            i - 1,
                        )).push(made@[i - 1]));
                    }
                    assert(made@.take(i as int) =~= made@);
                    proof {
                        lemma_fees(stocked, st, f, tariff, tiers.s);
                        assert forall|j: int| 0 <= j < fees@.len() implies (
                        #[trigger] fees@[j] matches Src::Made { step, .. } ==> step
                            < steps@.len()) by {
                            if j < stocked.len() {
                                assert(fees@[j] == stocked[j]);
                            } else {
                                assert(fees@[j] == st.made[j - stocked.len()]);
                            }
                        }
                    }
                    let spent = fee_order(&fees, &steps);
                    proof {
                        assert forall|j: int| 0 <= j < spent@.len() implies made_before(
                            #[trigger] spent@[j],
                            steps@.len(),
                        ) by {
                            assert(spent@[j] == fees_of(stocked, st)[j]);
                        }
                        assert forall|j: int| 0 <= j < pairs@.len() implies mergeable(
                            #[trigger] pairs@[j],
                            j as nat,
                        ) by {
                            assert(asset_known(pairs@[j].0, v, asset, pairs@, j));
                        }
                    }
                    let steps = lay_out(
                        &inputs,
                        &pairs,
                        &spent,
                        steps,
                        shape,
                        tariff,
                        amount,
                    );
                    Ok(SendPlan { asset, amount, steps })
                },
            }
        },
    }
}

} // verus!
