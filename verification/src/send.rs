//! Choosing the notes of a spend and assembling what the prover is handed.
//!
//! The frozen shape moves at most two notes. The notes are chosen here; the
//! keys, positions and paths of the chosen ones come from the wallet and its
//! tree, and are checked here before a bundle is made of them.
use crate::bundle::{BundleError, BundleFacts, MerkleWitness, TxInput, TxOutput, WitnessBundle};
use crate::random::rand_lanes;
use crate::text::{push_dec, push_dec_wide};
#[allow(unused_imports)]
use crate::text::dec;
use crate::wire::digest_lanes;
#[allow(unused_imports)]
use crate::wire::{lane_bytes, lanes_of};
use rand::rngs::StdRng;
use vstd::prelude::*;

verus! {

/// One note that this wallet can spend, and the index of the address that
/// received it.
#[derive(Clone, Copy, Debug, PartialEq, Eq)]
pub struct Spendable {
    pub div_index: u64,
    pub value: u64,
    pub rho: [u64; 4],
    pub rseed: [u64; 4],
}

/// Why no bundle was built.
#[derive(Debug, PartialEq, Eq)]
pub enum BuildRefusal {
    /// The posted fee and the name fee do not fit together.
    FeeOverflow,
    /// The amount and the fee do not fit together.
    AmountOverflow,
    /// No one note and no two notes cover the amount and the fee.
    CannotCover { need: u64, amount: u64, fee: u64, have: u128 },
    /// A chosen note's commitment is in no leaf of the tree.
    NotInTree,
    /// A chosen note's leaf is not under the anchor.
    OutsideAnchor { position: u64, anchor_count: u64 },
    /// The recipient's address has no encapsulation key.
    NoEncapsulationKey,
    /// What was assembled does not validate.
    Invalid(BundleError),
}

impl BuildRefusal {
    /// The sentence that a person is shown.
    pub open spec fn text(&self) -> Seq<char> {
        match self {
            BuildRefusal::FeeOverflow => "posted fee plus name fee overflows"@,
            BuildRefusal::AmountOverflow => "amount overflows"@,
            BuildRefusal::CannotCover { need, amount, fee, have } => "cannot cover "@ + dec(
                *need as nat,
            ) + " bessel (amount "@ + dec(*amount as nat) + " + posted fee "@ + dec(*fee as nat)
                + ") from spendable notes summing "@ + dec(*have as nat)
                + ". The frozen 2×2 bucket moves at most TWO notes per transaction — if the total covers it but no two notes do, consolidate to yourself first."@,
            BuildRefusal::NotInTree => "a spendable note's commitment is not in the supplied tree — the tree and the scan disagree; refusing rather than proving against the wrong anchor"@,
            BuildRefusal::OutsideAnchor { position, anchor_count } => "this note is at tree position "@
                + dec(*position as nat) + ", which is outside the anchor at "@ + dec(
                *anchor_count as nat,
            )
                + " leaves — its block is not finalized yet. A witness can only be built against a finalized anchor, so this spend is not possible YET; it becomes possible with no action once finality advances past that block. Refusing here rather than proving a statement the chain would reject."@,
            BuildRefusal::NoEncapsulationKey => "recipient address carries no ML-KEM encapsulation key"@,
            BuildRefusal::Invalid(e) => e.text(),
        }
    }

    /// The sentence that a person is shown.
    pub fn message(&self) -> (r: String)
        ensures
            r@ == self.text(),
    {
        let mut s: String = String::new();
        match self {
            BuildRefusal::FeeOverflow => s.append("posted fee plus name fee overflows"),
            BuildRefusal::AmountOverflow => s.append("amount overflows"),
            BuildRefusal::CannotCover { need, amount, fee, have } => {
                s.append("cannot cover ");
                push_dec(&mut s, *need);
                s.append(" bessel (amount ");
                push_dec(&mut s, *amount);
                s.append(" + posted fee ");
                push_dec(&mut s, *fee);
                s.append(") from spendable notes summing ");
                push_dec_wide(&mut s, *have);
                s.append(
                    ". The frozen 2×2 bucket moves at most TWO notes per transaction — if the total covers it but no two notes do, consolidate to yourself first.",
                );
            },
            BuildRefusal::NotInTree => s.append(
                "a spendable note's commitment is not in the supplied tree — the tree and the scan disagree; refusing rather than proving against the wrong anchor",
            ),
            BuildRefusal::OutsideAnchor { position, anchor_count } => {
                s.append("this note is at tree position ");
                push_dec(&mut s, *position);
                s.append(", which is outside the anchor at ");
                push_dec(&mut s, *anchor_count);
                s.append(
                    " leaves — its block is not finalized yet. A witness can only be built against a finalized anchor, so this spend is not possible YET; it becomes possible with no action once finality advances past that block. Refusing here rather than proving a statement the chain would reject.",
                );
            },
            BuildRefusal::NoEncapsulationKey => s.append(
                "recipient address carries no ML-KEM encapsulation key",
            ),
            BuildRefusal::Invalid(e) => {
                let why = e.message();
                s.append(why.as_str());
            },
        }
        assert(s@ =~= self.text());
        s
    }
}

/// `i` is the first of the notes with the largest value, not counting the
/// note at `skip`.
pub open spec fn is_largest(notes: Seq<Spendable>, i: int, skip: Option<int>) -> bool {
    largest_to(notes, i, notes.len() as int, skip)
}

/// The same among the first `n` notes.
pub open spec fn largest_to(notes: Seq<Spendable>, i: int, n: int, skip: Option<int>) -> bool {
    &&& 0 <= i < n && skip != Some(i)
    &&& forall|j: int|
        0 <= j < n && skip != Some(j) ==> (#[trigger] notes[j]).value <= notes[i].value
    &&& forall|j: int|
        0 <= j < i && skip != Some(j) ==> (#[trigger] notes[j]).value < notes[i].value
}

/// A place among the notes, as a number.
pub open spec fn place(skip: Option<usize>) -> Option<int> {
    match skip {
        Some(s) => Some(s as int),
        None => None,
    }
}

/// The value of the notes together.
pub open spec fn sum_of(notes: Seq<Spendable>) -> nat
    decreases notes.len(),
{
    if notes.len() == 0 {
        0
    } else {
        sum_of(notes.drop_last()) + notes.last().value as nat
    }
}

fn largest(notes: &[Spendable], skip: Option<usize>) -> (r: Option<usize>)
    ensures
        match r {
            Some(i) => is_largest(notes@, i as int, place(skip)),
            None => notes@.len() == 0 || (notes@.len() == 1 && skip == Some(0usize)),
        },
{
    let mut best: Option<usize> = None;
    let mut i: usize = 0;
    while i < notes.len()
        invariant
            i <= notes@.len(),
            match best {
                Some(b) => largest_to(notes@, b as int, i as int, place(skip)),
                None => i == 0 || (i == 1 && skip == Some(0usize)),
            },
        decreases notes@.len() - i,
    {
        let skipped: bool = match skip {
            Some(s) => s == i,
            None => false,
        };
        if !skipped {
            best = match best {
                Some(b) => if notes[i].value > notes[b].value {
                    Some(i)
                } else {
                    Some(b)
                },
                None => Some(i),
            };
        }
        i += 1;
    }
    best
}

/// The value of the notes together.
pub fn total(notes: &[Spendable]) -> (r: u128)
    ensures
        r as nat == sum_of(notes@),
{
    let mut sum: u128 = 0;
    let mut i: usize = 0;
    assert(notes@.take(0) =~= Seq::empty());
    while i < notes.len()
        invariant
            i <= notes@.len(),
            sum as nat == sum_of(notes@.take(i as int)),
            sum <= i * 0xffff_ffff_ffff_ffff,
        decreases notes@.len() - i,
    {
        assert(notes@.take(i + 1).drop_last() =~= notes@.take(i as int));
        assert(i * 0xffff_ffff_ffff_ffff + 0xffff_ffff_ffff_ffff <= u128::MAX) by (nonlinear_arith)
            requires
                i < 0xffff_ffff_ffff_ffff,
        ;
        sum += notes[i].value as u128;
        i += 1;
        assert(i * 0xffff_ffff_ffff_ffff == (i - 1) * 0xffff_ffff_ffff_ffff
            + 0xffff_ffff_ffff_ffff) by (nonlinear_arith);
    }
    assert(notes@.take(notes@.len() as int) =~= notes@);
    sum
}

/// Which notes a spend moves, and what is left of them.
#[derive(Clone, Copy, Debug, PartialEq, Eq)]
pub struct InputPlan {
    /// The note in the first slot.
    pub first: usize,
    /// The note in the second slot; without one the slot holds a dummy.
    pub second: Option<usize>,
    pub fee: u64,
    /// The amount and the fee.
    pub need: u64,
    pub change: u64,
}

/// The value that the planned notes bring.
pub open spec fn plan_value(plan: InputPlan, notes: Seq<Spendable>) -> int {
    notes[plan.first as int].value + (match plan.second {
        Some(j) => notes[j as int].value as int,
        None => 0,
    })
}

/// The plan of the fewest notes that cover, largest first: the largest note if
/// it covers, else the two largest if their sum covers and is a value at all.
pub open spec fn plans(plan: InputPlan, notes: Seq<Spendable>, amount: u64, fee: int) -> bool {
    &&& plan.fee == fee
    &&& plan.need == amount + fee
    &&& is_largest(notes, plan.first as int, None)
    &&& match plan.second {
        None => notes[plan.first as int].value >= plan.need,
        Some(j) => {
            &&& notes[plan.first as int].value < plan.need
            &&& is_largest(notes, j as int, Some(plan.first as int))
        },
    }
    &&& plan.need <= plan_value(plan, notes) <= u64::MAX
    &&& plan.change == plan_value(plan, notes) - plan.need
}

/// Whether some plan covers the amount and the fee.
pub open spec fn coverable(notes: Seq<Spendable>, amount: u64, fee: int) -> bool {
    exists|plan: InputPlan| plans(plan, notes, amount, fee)
}

/// Chooses the notes of a spend of `amount`.
pub fn choose_inputs(notes: &[Spendable], amount: u64, posted_fee: u64, name_fee: u64) -> (r: Result<
    InputPlan,
    BuildRefusal,
>)
    ensures
        posted_fee + name_fee > u64::MAX <==> r == Err::<InputPlan, BuildRefusal>(
            BuildRefusal::FeeOverflow,
        ),
        posted_fee + name_fee <= u64::MAX ==> (amount + posted_fee + name_fee > u64::MAX <==> r
            == Err::<InputPlan, BuildRefusal>(BuildRefusal::AmountOverflow)),
        amount + posted_fee + name_fee <= u64::MAX ==> (r is Ok <==> coverable(
            notes@,
            amount,
            posted_fee + name_fee,
        )),
        r matches Ok(plan) ==> plans(plan, notes@, amount, posted_fee + name_fee),
        r matches Err(BuildRefusal::CannotCover { need, amount: a, fee, have }) ==> {
            &&& need == amount + posted_fee + name_fee
            &&& a == amount
            &&& fee == posted_fee + name_fee
            &&& have as nat == sum_of(notes@)
        },
        r matches Err(e) ==> e is FeeOverflow || e is AmountOverflow || e is CannotCover,
        // What the chosen notes bring is the amount, both fees and the change.
        r matches Ok(plan) ==> {
            &&& plan.first < notes@.len()
            &&& plan.fee == posted_fee + name_fee && plan.need == amount + posted_fee + name_fee
            &&& plan.second is None ==> notes@[plan.first as int].value == amount + posted_fee
                + name_fee + plan.change
            &&& plan.second matches Some(j) ==> j < notes@.len() && j != plan.first
                && notes@[plan.first as int].value + notes@[j as int].value == amount + posted_fee
                + name_fee + plan.change
        },
        // One note is taken exactly where one is enough, and no note that is
        // left is worth more than one that is taken.
        r matches Ok(plan) ==> (plan.second is None <==> exists|i: int|
            0 <= i < notes@.len() && (#[trigger] notes@[i]).value >= amount + posted_fee + name_fee),
        r matches Ok(plan) ==> forall|i: int|
            0 <= i < notes@.len() && i != plan.first ==> (#[trigger] notes@[i]).value
                <= notes@[plan.first as int].value && (plan.second matches Some(j) ==> notes@[i].value
                <= notes@[j as int].value),
        // A note that covers is never passed over.
        r matches Err(BuildRefusal::CannotCover { .. }) ==> forall|i: int|
            0 <= i < notes@.len() ==> (#[trigger] notes@[i]).value < amount + posted_fee + name_fee,
{
    let fee: u64 = match posted_fee.checked_add(name_fee) {
        Some(fee) => fee,
        None => {
            return Err(BuildRefusal::FeeOverflow);
        },
    };
    let need: u64 = match amount.checked_add(fee) {
        Some(need) => need,
        None => {
            return Err(BuildRefusal::AmountOverflow);
        },
    };
    let first = largest(notes, None);
    match first {
        Some(i) => {
            if notes[i].value >= need {
                let plan = InputPlan {
                    first: i,
                    second: None,
                    fee,
                    need,
                    change: notes[i].value - need,
                };
                assert(plans(plan, notes@, amount, posted_fee + name_fee));
                return Ok(plan);
            }
            match largest(notes, Some(i)) {
                Some(j) => {
                    match notes[i].value.checked_add(notes[j].value) {
                        Some(sum) => {
                            if sum >= need {
                                let plan = InputPlan {
                                    first: i,
                                    second: Some(j),
                                    fee,
                                    need,
                                    change: sum - need,
                                };
                                assert(plans(plan, notes@, amount, posted_fee + name_fee));
                                return Ok(plan);
                            }
                        },
                        None => {},
                    }
                    proof {
                        let f = posted_fee + name_fee;
                        assert forall|p: InputPlan| !plans(p, notes@, amount, f) by {
                            if plans(p, notes@, amount, f) {
                                lemma_largest_unique(notes@, p.first as int, i as int, None);
                                if let Some(k) = p.second {
                                    lemma_largest_unique(notes@, k as int, j as int, Some(i as int));
                                }
                            }
                        }
                    }
                },
                None => {
                    proof {
                        let f = posted_fee + name_fee;
                        assert forall|p: InputPlan| !plans(p, notes@, amount, f) by {
                            if plans(p, notes@, amount, f) {
                                lemma_largest_unique(notes@, p.first as int, i as int, None);
                            }
                        }
                    }
                },
            }
        },
        None => {},
    }
    let have = total(notes);
    Err(BuildRefusal::CannotCover { need, amount, fee, have })
}

proof fn lemma_largest_unique(notes: Seq<Spendable>, i: int, j: int, skip: Option<int>)
    requires
        is_largest(notes, i, skip),
        is_largest(notes, j, skip),
    ensures
        i == j,
{
    assert(notes[i].value <= notes[j].value && notes[j].value <= notes[i].value);
    if i < j {
        assert(notes[i].value < notes[j].value);
    }
    if j < i {
        assert(notes[j].value < notes[i].value);
    }
}

/// The chosen notes are the fewest: one if and only if some note covers by
/// itself. Where nothing is chosen, no note covers; and no two do, unless the
/// two largest together are more than a value can hold.
pub proof fn law_fewest_notes_cover(notes: Seq<Spendable>, amount: u64, fee: int)
    requires
        0 <= fee,
        amount + fee <= u64::MAX,
        notes.len() <= usize::MAX,
    ensures
        forall|plan: InputPlan| #[trigger]
            plans(plan, notes, amount, fee) ==> (plan.second is None <==> exists|i: int|
                0 <= i < notes.len() && (#[trigger] notes[i]).value >= amount + fee),
        !coverable(notes, amount, fee) ==> {
            &&& forall|i: int| 0 <= i < notes.len() ==> (#[trigger] notes[i]).value < amount + fee
            &&& forall|i: int, j: int|
                0 <= i < notes.len() && 0 <= j < notes.len() && i != j ==> {
                    ||| (#[trigger] notes[i]).value + (#[trigger] notes[j]).value < amount + fee
                    ||| exists|a: int, b: int| #[trigger]
                        is_largest(notes, a, None) && #[trigger] is_largest(notes, b, Some(a))
                            && notes[a].value + notes[b].value > u64::MAX
                }
        },
{
    assert forall|plan: InputPlan| #[trigger] plans(plan, notes, amount, fee) implies (
    plan.second is None <==> exists|i: int|
        0 <= i < notes.len() && (#[trigger] notes[i]).value >= amount + fee) by {
        if plan.second is None {
            assert(notes[plan.first as int].value >= amount + fee);
        }
    }
    if !coverable(notes, amount, fee) {
        if notes.len() > 0 {
            lemma_largest_exists(notes, None);
            let a = choose|a: int| is_largest(notes, a, None);
            let one = InputPlan {
                first: a as usize,
                second: None,
                fee: fee as u64,
                need: (amount + fee) as u64,
                change: (notes[a].value - (amount + fee)) as u64,
            };
            assert(!plans(one, notes, amount, fee));
            assert(notes[a].value < amount + fee);
            if notes.len() > 1 {
                lemma_largest_exists(notes, Some(a));
                let b = choose|b: int| is_largest(notes, b, Some(a));
                let two = InputPlan {
                    first: a as usize,
                    second: Some(b as usize),
                    fee: fee as u64,
                    need: (amount + fee) as u64,
                    change: (notes[a].value + notes[b].value - (amount + fee)) as u64,
                };
                assert(!plans(two, notes, amount, fee));
                assert forall|i: int, j: int|
                    0 <= i < notes.len() && 0 <= j < notes.len() && i != j implies {
                    ||| (#[trigger] notes[i]).value + (#[trigger] notes[j]).value < amount + fee
                    ||| exists|a: int, b: int| #[trigger]
                        is_largest(notes, a, None) && #[trigger] is_largest(notes, b, Some(a))
                            && notes[a].value + notes[b].value > u64::MAX
                } by {
                    if notes[a].value + notes[b].value <= u64::MAX {
                        assert(notes[i].value <= notes[a].value && notes[j].value <= notes[a].value);
                        if i != a {
                            assert(notes[i].value <= notes[b].value);
                        } else {
                            assert(notes[j].value <= notes[b].value);
                        }
                    } else {
                        assert(is_largest(notes, a, None) && is_largest(notes, b, Some(a)));
                    }
                }
            }
        }
    }
}

proof fn lemma_largest_exists(notes: Seq<Spendable>, skip: Option<int>)
    requires
        notes.len() >= 2 || (notes.len() == 1 && skip != Some(0int)),
    ensures
        exists|i: int| is_largest(notes, i, skip),
{
    let n = notes.len() as int;
    lemma_largest_to(notes, n, skip);
    let i = choose|i: int| largest_to(notes, i, n, skip);
    assert(is_largest(notes, i, skip));
}

proof fn lemma_largest_to(notes: Seq<Spendable>, n: int, skip: Option<int>)
    requires
        0 <= n <= notes.len(),
        n >= 2 || (n == 1 && skip != Some(0int)),
    ensures
        exists|i: int| largest_to(notes, i, n, skip),
    decreases n,
{
    if n - 1 >= 2 || (n - 1 == 1 && skip != Some(0int)) {
        lemma_largest_to(notes, n - 1, skip);
        let m = n - 1;
        let b = choose|i: int| largest_to(notes, i, m, skip);
        if skip != Some(n - 1) && notes[n - 1].value > notes[b].value {
            assert(largest_to(notes, n - 1, n, skip));
        } else {
            assert(largest_to(notes, b, n, skip));
        }
    } else {
        assert(largest_to(notes, n - 1, n, skip));
    }
}

/// The dummy input of four draws: worth nothing, with the first two lanes of the
/// first draw for its diversifier.
pub fn dummy_of(draws: &[[u64; 4]; 4]) -> (r: TxInput)
    ensures
        r.value == 0,
        r.d@ == draws@[0]@.take(2),
        r.sk == draws@[1],
        r.rho == draws@[2],
        r.rseed == draws@[3],
{
    let d: [u64; 2] = [draws[0][0], draws[0][1]];
    assert(d@ =~= draws@[0]@.take(2));
    TxInput { sk: draws[1], value: 0, rho: draws[2], rseed: draws[3], d }
}

/// A dummy input: an invented key and note, worth nothing. Nothing is said of
/// the rest of it: it is random.
pub fn invented_dummy(rng: &mut StdRng) -> (r: TxInput)
    ensures
        r.value == 0,
{
    let d4 = rand_lanes(rng);
    let sk = rand_lanes(rng);
    let rho = rand_lanes(rng);
    let rseed = rand_lanes(rng);
    dummy_of(&[d4, sk, rho, rseed])
}

/// What the wallet and its tree know of a chosen note.
#[derive(Clone)]
pub struct ChosenInput {
    /// The key that spends the note.
    pub sk: [u64; 4],
    /// The diversifier that received it.
    pub d: [u64; 2],
    /// Where the note's commitment stands in the tree.
    pub position: Option<u64>,
    /// The path from there to the anchor.
    pub witness: MerkleWitness,
}

/// What the wallet, its tree and the chain's derivations give for a plan.
pub struct BuildMaterial {
    pub first: ChosenInput,
    /// The second note's; without one, the dummy's.
    pub second: ChosenInput,
    /// The invented note of the dummy. Where two notes are spent, nothing reads
    /// it.
    pub dummy_rho: [u64; 4],
    pub dummy_rseed: [u64; 4],
    pub recipient_rkm: [u64; 4],
    pub change_rkm: [u64; 4],
    pub output_rho: [[u64; 4]; 2],
    pub output_rseed: [[u64; 4]; 2],
    /// Both outputs sealed to their owners; `None` if the recipient's address
    /// has no encapsulation key.
    pub discovery: Option<Vec<u8>>,
    pub rider: Vec<u8>,
    pub facts: BundleFacts,
}

/// What the spend is, and what was established before it.
#[derive(Clone, Debug)]
pub struct BuildContext {
    pub amount: u64,
    pub anchor_count: u64,
    /// The root of that many leaves.
    pub anchor_root: [u8; 32],
    pub anchor_tip_height: u64,
    pub recipient_short: String,
    pub output_range: Option<(u64, u64)>,
    pub spent_covered: Option<(u64, u64)>,
}

/// What is wrong with where a chosen note stands; `None` if it is under the
/// anchor.
pub open spec fn position_fault(position: Option<u64>, anchor_count: u64) -> Option<BuildRefusal> {
    match position {
        None => Some(BuildRefusal::NotInTree),
        Some(position) => if position >= anchor_count {
            Some(BuildRefusal::OutsideAnchor { position, anchor_count })
        } else {
            None
        },
    }
}

/// Whether a chosen note is in the tree, and under the anchor.
pub fn check_position(position: Option<u64>, anchor_count: u64) -> (r: Result<u64, BuildRefusal>)
    ensures
        match r {
            Ok(p) => position == Some(p) && p < anchor_count,
            Err(e) => position_fault(position, anchor_count) == Some(e),
        },
{
    match position {
        None => Err(BuildRefusal::NotInTree),
        Some(p) => if p >= anchor_count {
            Err(BuildRefusal::OutsideAnchor { position: p, anchor_count })
        } else {
            Ok(p)
        },
    }
}

/// The first fault in where the planned notes stand.
pub open spec fn plan_fault(plan: InputPlan, ctx: BuildContext, m: BuildMaterial) -> Option<
    BuildRefusal,
> {
    match position_fault(m.first.position, ctx.anchor_count) {
        Some(e) => Some(e),
        None => if plan.second is Some {
            position_fault(m.second.position, ctx.anchor_count)
        } else {
            None
        },
    }
}

/// The plan speaks of these notes.
pub open spec fn plan_of(plan: InputPlan, notes: Seq<Spendable>) -> bool {
    plan.first < notes.len() && (plan.second matches Some(j) ==> j < notes.len())
}

/// The spend of a note, with what the wallet knows of it.
pub open spec fn spend_of(note: Spendable, c: ChosenInput) -> TxInput {
    TxInput { sk: c.sk, value: note.value, rho: note.rho, rseed: note.rseed, d: c.d }
}

/// The spend in the second slot: of the second note, or of the dummy, which is
/// worth nothing.
pub open spec fn second_spend(plan: InputPlan, notes: Seq<Spendable>, m: BuildMaterial) -> TxInput {
    match plan.second {
        Some(j) => spend_of(notes[j as int], m.second),
        None => TxInput {
            sk: m.second.sk,
            value: 0,
            rho: m.dummy_rho,
            rseed: m.dummy_rseed,
            d: m.second.d,
        },
    }
}

/// An input has the value and the secrets of a note.
pub open spec fn is_spent_by(note: Spendable, input: TxInput) -> bool {
    input.value == note.value && input.rho == note.rho && input.rseed == note.rseed
}

/// The bundle is the one that the plan, its notes, the context and the material
/// make: the planned notes are its inputs, the recipient's output comes first
/// and the change second, and the anchor and both ranges are as they were
/// established.
pub open spec fn assembled(
    b: WitnessBundle,
    plan: InputPlan,
    notes: Seq<Spendable>,
    ctx: BuildContext,
    m: BuildMaterial,
) -> bool {
    &&& b.inputs@[0] == spend_of(notes[plan.first as int], m.first)
    &&& b.inputs@[1] == second_spend(plan, notes, m)
    &&& b.witnesses@[0] == m.first.witness && b.witnesses@[1] == m.second.witness
    &&& b.outputs@[0] == (TxOutput {
        value: ctx.amount,
        rkm: m.recipient_rkm,
        rho: m.output_rho@[0],
        rseed: m.output_rseed@[0],
    })
    &&& b.outputs@[1] == (TxOutput {
        value: plan.change,
        rkm: m.change_rkm,
        rho: m.output_rho@[1],
        rseed: m.output_rseed@[1],
    })
    &&& b.anchor@ == lanes_of(ctx.anchor_root@)
    &&& m.discovery == Some(b.discovery)
    &&& b.rider == m.rider
    &&& b.real_inputs == (if plan.second is Some {
        2u8
    } else {
        1u8
    })
    &&& b.amount == ctx.amount && b.fee == plan.fee && b.change_value == plan.change
    &&& b.anchor_tip_height == ctx.anchor_tip_height
    &&& b.recipient_short == ctx.recipient_short
    &&& b.allowed_scan_verdicts_only
    &&& b.output_range == ctx.output_range && b.spent_covered == ctx.spent_covered
}

/// Whether `e` is why no bundle is made: where a chosen note stands, a
/// recipient that cannot be sealed to, or the fault of what would be
/// assembled.
pub open spec fn build_refused(
    plan: InputPlan,
    notes: Seq<Spendable>,
    ctx: BuildContext,
    m: BuildMaterial,
    e: BuildRefusal,
) -> bool {
    match plan_fault(plan, ctx, m) {
        Some(f) => e == f,
        None => if m.discovery is None {
            e is NoEncapsulationKey
        } else {
            &&& e matches BuildRefusal::Invalid(v)
            &&& forall|b: WitnessBundle| #[trigger]
                assembled(b, plan, notes, ctx, m) ==> !b.valid(m.facts) && b.refused_as(m.facts, v)
        },
    }
}

fn spent_note(note: &Spendable, c: &ChosenInput) -> (r: TxInput)
    ensures
        r == spend_of(*note, *c),
{
    TxInput { sk: c.sk, value: note.value, rho: note.rho, rseed: note.rseed, d: c.d }
}

/// Assembles the bundle of a planned spend of some of the `notes`: refused if a
/// chosen note is not under the anchor, if the recipient cannot be sealed to, or
/// if what is assembled does not validate.
pub fn build_bundle(plan: &InputPlan, notes: &[Spendable], ctx: BuildContext, m: BuildMaterial) -> (r:
    Result<WitnessBundle, BuildRefusal>)
    requires
        plan_of(*plan, notes@),
    ensures
        match r {
            Ok(b) => {
                &&& plan_fault(*plan, ctx, m) is None
                &&& assembled(b, *plan, notes@, ctx, m)
                &&& b.valid(m.facts)
            },
            Err(e) => build_refused(*plan, notes@, ctx, m, e),
        },
        // The amount is the recipient's, and the change is this wallet's own.
        r matches Ok(b) ==> {
            &&& b.outputs@[0].value == ctx.amount && b.outputs@[0].rkm == m.recipient_rkm
            &&& b.outputs@[1].value == plan.change && b.outputs@[1].rkm == m.change_rkm
            &&& forall|k: int|
                0 <= k < 2 ==> (#[trigger] b.outputs@[k]).rho == m.output_rho@[k]
                    && b.outputs@[k].rseed == m.output_rseed@[k]
            &&& b.amount == ctx.amount && b.change_value == plan.change && b.fee == plan.fee
        },
        // Each planned note is spent, with its own key, along its own path.
        r matches Ok(b) ==> {
            &&& is_spent_by(notes@[plan.first as int], b.inputs@[0])
            &&& b.inputs@[0].sk == m.first.sk && b.inputs@[0].d == m.first.d
            &&& b.inputs@[1].sk == m.second.sk && b.inputs@[1].d == m.second.d
            &&& b.witnesses@[0] == m.first.witness && b.witnesses@[1] == m.second.witness
            &&& plan.second matches Some(j) ==> is_spent_by(notes@[j as int], b.inputs@[1])
                && b.real_inputs == 2
            &&& plan.second is None ==> b.inputs@[1].value == 0 && b.inputs@[1].rho == m.dummy_rho
                && b.inputs@[1].rseed == m.dummy_rseed && b.real_inputs == 1
        },
        // Every real input lies under the anchor that was established.
        r matches Ok(b) ==> {
            &&& m.first.position matches Some(p) && p < ctx.anchor_count
            &&& plan.second is Some ==> (m.second.position matches Some(p) && p < ctx.anchor_count)
            &&& b.anchor@ == lanes_of(ctx.anchor_root@) && b.anchor_tip_height
                == ctx.anchor_tip_height
        },
        r matches Ok(b) ==> {
            &&& m.discovery matches Some(d) && b.discovery@ == d@
            &&& b.rider@ == m.rider@ && b.recipient_short@ == ctx.recipient_short@
            &&& b.allowed_scan_verdicts_only
            &&& b.output_range == ctx.output_range && b.spent_covered == ctx.spent_covered
        },
        r == Err::<WitnessBundle, BuildRefusal>(BuildRefusal::NotInTree) <==> m.first.position is None
            || (m.first.position->0 < ctx.anchor_count && plan.second is Some
            && m.second.position is None),
        (r matches Err(BuildRefusal::OutsideAnchor { .. })) <==> (m.first.position matches Some(p)
            && (p >= ctx.anchor_count || (plan.second is Some && (m.second.position matches Some(q)
            && q >= ctx.anchor_count)))),
        r matches Err(BuildRefusal::OutsideAnchor { position, anchor_count }) ==> anchor_count
            == ctx.anchor_count && position >= anchor_count && (m.first.position == Some(position)
            || m.second.position == Some(position)),
{
    match check_position(m.first.position, ctx.anchor_count) {
        Ok(_) => {},
        Err(e) => {
            return Err(e);
        },
    }
    if plan.second.is_some() {
        match check_position(m.second.position, ctx.anchor_count) {
            Ok(_) => {},
            Err(e) => {
                return Err(e);
            },
        }
    }
    let discovery = match m.discovery {
        Some(d) => d,
        None => {
            return Err(BuildRefusal::NoEncapsulationKey);
        },
    };
    let first = spent_note(&notes[plan.first], &m.first);
    let second = match plan.second {
        Some(j) => spent_note(&notes[j], &m.second),
        None => TxInput {
            sk: m.second.sk,
            value: 0,
            rho: m.dummy_rho,
            rseed: m.dummy_rseed,
            d: m.second.d,
        },
    };
    let bundle = WitnessBundle {
        inputs: [first, second],
        witnesses: [m.first.witness, m.second.witness],
        outputs: [
            TxOutput {
                value: ctx.amount,
                rkm: m.recipient_rkm,
                rho: m.output_rho[0],
                rseed: m.output_rseed[0],
            },
            TxOutput {
                value: plan.change,
                rkm: m.change_rkm,
                rho: m.output_rho[1],
                rseed: m.output_rseed[1],
            },
        ],
        anchor: digest_lanes(&ctx.anchor_root),
        discovery,
        rider: m.rider,
        real_inputs: if plan.second.is_some() { 2 } else { 1 },
        amount: ctx.amount,
        fee: plan.fee,
        change_value: plan.change,
        anchor_tip_height: ctx.anchor_tip_height,
        recipient_short: ctx.recipient_short,
        allowed_scan_verdicts_only: true,
        output_range: ctx.output_range,
        spent_covered: ctx.spent_covered,
    };
    assert(assembled(bundle, *plan, notes@, ctx, m));
    match bundle.validate(&m.facts) {
        Ok(()) => Ok(bundle),
        Err(e) => {
            proof {
                assert forall|b: WitnessBundle| #[trigger]
                    assembled(b, *plan, notes@, ctx, m) implies !b.valid(m.facts) && b.refused_as(
                    m.facts,
                    e,
                ) by {
                    assert(b.inputs@ =~= bundle.inputs@);
                    assert(b.outputs@ =~= bundle.outputs@);
                    assert(b.value_fault(m.facts) == bundle.value_fault(m.facts));
                    assert(b.binding_fault(m.facts) == bundle.binding_fault(m.facts));
                }
            }
            Err(BuildRefusal::Invalid(e))
        },
    }
}

/// The bundle of a planned spend spends the planned notes and nothing else of
/// worth: each real input has the value and the secrets of its note, the dummy
/// is worth nothing, and what the inputs bring is the amount, the fee and the
/// change. The amount goes to the recipient's key and the change to this
/// wallet's own. Its anchor is the root that was established.
pub proof fn law_planned_bundle_spends_its_notes(
    plan: InputPlan,
    notes: Seq<Spendable>,
    ctx: BuildContext,
    m: BuildMaterial,
    fee: int,
    b: WitnessBundle,
)
    requires
        plans(plan, notes, ctx.amount, fee),
        assembled(b, plan, notes, ctx, m),
    ensures
        is_spent_by(notes[plan.first as int], b.inputs@[0]),
        plan.second matches Some(j) ==> is_spent_by(notes[j as int], b.inputs@[1]),
        plan.second is None ==> b.inputs@[1].value == 0,
        b.real_inputs == 2 <==> plan.second is Some,
        b.outputs@[0].value == ctx.amount && b.outputs@[0].rkm == m.recipient_rkm,
        b.outputs@[1].value == plan.change && b.outputs@[1].rkm == m.change_rkm,
        b.outputs@[0].value + b.outputs@[1].value + fee == b.inputs@[0].value + b.inputs@[1].value,
        b.fee == fee,
        b.total_in() == b.total_out(),
        b.total_in() <= u64::MAX,
        lane_bytes(b.anchor@) == ctx.anchor_root@,
{
    crate::wire::lemma_bytes_of_lanes(ctx.anchor_root@);
}

} // verus!
