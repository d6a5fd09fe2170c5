//! A plan at work: what it comes to, what a person is shown of it, and the
//! order in which its steps are run and their notes awaited.
#[allow(unused_imports)]
use crate::annulet_laws::{
    countable, fees_to, is_plan, law_every_step_balances, law_plan_ends_in_the_payment,
    law_steps_spend_landed_notes, merges_to, spends, splits_to,
};
use crate::annulet_send::{
    plan_send, smallest_covering, AssetIndex, L2ShapeTag, SendPlan, SendRefusal, SpendError, Src,
    Step, StepKind, Tiers,
};
#[allow(unused_imports)]
use crate::annulet_send::{
    capped, least, lemma_least, models, planned, refused_as, values, KindModel, PlanFault, StepModel,
};
use crate::bytes32::eq32;
#[allow(unused_imports)]
use crate::text::dec;
use crate::text::{push_dec, push_dec_wide};
use vstd::prelude::*;

verus! {

/// One round more than the last of the first `n` steps; 0 where there is none.
pub open spec fn rounds_to(steps: Seq<StepModel>, n: int) -> nat
    decreases n,
{
    if n <= 0 {
        0
    } else if steps[n - 1].round + 1 > rounds_to(steps, n - 1) {
        steps[n - 1].round + 1
    } else {
        rounds_to(steps, n - 1)
    }
}

/// The rounds are one more than the last that a step is in: every step is in one
/// of them, and the last of them has a step.
pub proof fn law_rounds_end_with_the_last_step(steps: Seq<StepModel>, n: int)
    requires
        0 <= n <= steps.len(),
    ensures
        forall|i: int| 0 <= i < n ==> (#[trigger] steps[i]).round < rounds_to(steps, n),
        n > 0 ==> exists|i: int| 0 <= i < n && (#[trigger] steps[i]).round + 1 == rounds_to(steps, n),
        n == 0 ==> rounds_to(steps, n) == 0,
    decreases n,
{
    if n > 0 {
        law_rounds_end_with_the_last_step(steps, n - 1);
        assert(steps[n - 1].round < rounds_to(steps, n));
        if rounds_to(steps, n) == rounds_to(steps, n - 1) {
            let i = choose|i: int|
                0 <= i < n - 1 && (#[trigger] steps[i]).round + 1 == rounds_to(steps, n - 1);
            assert(steps[i].round + 1 == rounds_to(steps, n));
        } else {
            assert(steps[n - 1].round + 1 == rounds_to(steps, n));
        }
    }
}

/// The values of sources with ` + ` between them.
pub open spec fn values_text(s: Seq<Src>) -> Seq<char>
    decreases s.len(),
{
    if s.len() == 0 {
        Seq::empty()
    } else if s.len() == 1 {
        dec(s[0].worth() as nat)
    } else {
        values_text(s.drop_last()) + " + "@ + dec(s.last().worth() as nat)
    }
}

fn push_values(t: &mut String, s: &Vec<Src>)
    ensures
        final(t)@ == old(t)@ + values_text(s@),
{
    let ghost t0 = t@;
    let mut i: usize = 0;
    assert(s@.take(0) =~= Seq::empty());
    assert(t@ =~= t0 + values_text(s@.take(0)));
    while i < s.len()
        invariant
            i <= s@.len(),
            t@ == t0 + values_text(s@.take(i as int)),
        decreases s@.len() - i,
    {
        assert(s@.take(i + 1).drop_last() =~= s@.take(i as int));
        if i > 0 {
            t.append(" + ");
        }
        push_dec(t, s[i].value());
        i += 1;
        assert(t@ =~= t0 + values_text(s@.take(i as int)));
    }
    assert(s@.take(i as int) =~= s@);
}

pub open spec fn shape_text(shape: L2ShapeTag) -> Seq<char> {
    match shape {
        L2ShapeTag::S => "S"@,
        L2ShapeTag::P => "P"@,
        L2ShapeTag::R => "R"@,
    }
}

fn push_shape(t: &mut String, shape: L2ShapeTag)
    ensures
        final(t)@ == old(t)@ + shape_text(shape),
{
    match shape {
        L2ShapeTag::S => t.append("S"),
        L2ShapeTag::P => t.append("P"),
        L2ShapeTag::R => t.append("R"),
    }
}

/// What a step does, in words.
pub open spec fn what_text(step: StepModel) -> Seq<char> {
    match step.kind {
        KindModel::FeeSplit { source, tariff } => "fee-split  asset-0 note "@ + dec(
            source.worth() as nat,
        ) + " → exact "@ + dec(tariff as nat) + " + "@ + dec(step.outputs.1 as nat) + " to self"@,
        KindModel::Merge { first, second, .. } => "merge      "@ + values_text(seq![first, second])
            + " → "@ + dec(step.outputs.0 as nat)
            + " to self (+ a 0 note), exact fee note in slot 3"@,
        KindModel::Pay { inputs, fee } => "pay        "@ + values_text(inputs) + " → "@ + dec(
            step.outputs.0 as nat,
        ) + " to the payee, "@ + dec(step.outputs.1 as nat) + " back"@ + match fee {
            Some(_) => if inputs.len() == 2 {
                ", exact fee note in slot 3"@
            } else {
                ", exact fee note as the second input"@
            },
            None => ", fee from the same note"@,
        },
    }
}

fn push_what(t: &mut String, step: &Step)
    ensures
        final(t)@ == old(t)@ + what_text(step@),
{
    let ghost t0 = t@;
    match &step.kind {
        StepKind::FeeSplit { source, tariff } => {
            t.append("fee-split  asset-0 note ");
            push_dec(t, source.value());
            t.append(" → exact ");
            push_dec(t, *tariff);
            t.append(" + ");
            push_dec(t, step.outputs[1]);
            t.append(" to self");
        },
        StepKind::Merge { inputs, .. } => {
            t.append("merge      ");
            let pair: Vec<Src> = vec![inputs[0], inputs[1]];
            assert(pair@ =~= seq![inputs@[0], inputs@[1]]);
            push_values(t, &pair);
            t.append(" → ");
            push_dec(t, step.outputs[0]);
            t.append(" to self (+ a 0 note), exact fee note in slot 3");
        },
        StepKind::Pay { inputs, fee } => {
            t.append("pay        ");
            push_values(t, inputs);
            t.append(" → ");
            push_dec(t, step.outputs[0]);
            t.append(" to the payee, ");
            push_dec(t, step.outputs[1]);
            t.append(" back");
            match fee {
                Some(_) => {
                    if inputs.len() == 2 {
                        t.append(", exact fee note in slot 3");
                    } else {
                        t.append(", exact fee note as the second input");
                    }
                },
                None => t.append(", fee from the same note"),
            }
        },
    }
    assert(t@ =~= t0 + what_text(step@));
}

/// The line of step `i`.
pub open spec fn step_line(i: nat, step: StepModel) -> Seq<char> {
    "  ["@ + dec(i) + "] round "@ + dec(step.round) + "  shape "@ + shape_text(step.shape)
        + "  fee "@ + dec(step.fee as nat) + "  "@ + what_text(step) + "\n"@
}

fn push_step_line(t: &mut String, i: usize, step: &Step)
    ensures
        final(t)@ == old(t)@ + step_line(i as nat, step@),
{
    let ghost t0 = t@;
    t.append("  [");
    push_dec(t, i as u64);
    t.append("] round ");
    push_dec(t, step.round as u64);
    t.append("  shape ");
    push_shape(t, step.shape);
    t.append("  fee ");
    push_dec(t, step.fee);
    t.append("  ");
    push_what(t, step);
    t.append("\n");
    assert(t@ =~= t0 + step_line(i as nat, step@));
}

/// The lines of the first `n` steps.
pub open spec fn steps_text(steps: Seq<StepModel>, n: int) -> Seq<char>
    decreases n,
{
    if n <= 0 {
        Seq::empty()
    } else {
        steps_text(steps, n - 1) + step_line((n - 1) as nat, steps[n - 1])
    }
}

impl SendPlan {
    pub open spec fn model(&self) -> Seq<StepModel> {
        models(self.steps@)
    }

    /// Everything the plan pays, in asset 0.
    pub fn total_fee(&self) -> (r: u128)
        ensures
            r == fees_to(self.model(), self.steps@.len() as int),
    {
        let mut r: u128 = 0;
        let mut i: usize = 0;
        while i < self.steps.len()
            invariant
                i <= self.steps@.len(),
                r == fees_to(self.model(), i as int),
                r <= i * u64::MAX,
            decreases self.steps@.len() - i,
        {
            r += self.steps[i].fee as u128;
            i += 1;
        }
        r
    }

    /// How many rounds there are: each waits for the one before to land.
    pub fn rounds(&self) -> (r: usize)
        requires
            self.orderly(),
        ensures
            r == rounds_to(self.model(), self.steps@.len() as int),
    {
        assert(self.steps@.len() == self.steps.len());
        let mut r: usize = 0;
        let mut i: usize = 0;
        while i < self.steps.len()
            invariant
                i <= self.steps@.len() <= usize::MAX,
                self.orderly(),
                r == rounds_to(self.model(), i as int),
            decreases self.steps@.len() - i,
        {
            if self.steps[i].round + 1 > r {
                r = self.steps[i].round + 1;
            }
            i += 1;
        }
        r
    }

    /// How many fee splits there are.
    pub fn splits(&self) -> (r: usize)
        ensures
            r == splits_to(self.model(), self.steps@.len() as int),
    {
        let mut r: usize = 0;
        let mut i: usize = 0;
        while i < self.steps.len()
            invariant
                i <= self.steps@.len(),
                r == splits_to(self.model(), i as int),
                r <= i,
            decreases self.steps@.len() - i,
        {
            if matches!(self.steps[i].kind, StepKind::FeeSplit { .. }) {
                r += 1;
            }
            i += 1;
        }
        r
    }

    /// How many merges there are.
    pub fn merges(&self) -> (r: usize)
        ensures
            r == merges_to(self.model(), self.steps@.len() as int),
    {
        let mut r: usize = 0;
        let mut i: usize = 0;
        while i < self.steps.len()
            invariant
                i <= self.steps@.len(),
                r == merges_to(self.model(), i as int),
                r <= i,
            decreases self.steps@.len() - i,
        {
            if matches!(self.steps[i].kind, StepKind::Merge { .. }) {
                r += 1;
            }
            i += 1;
        }
        r
    }

    /// The payment, which is the last step.
    pub fn pay(&self) -> (r: &Step)
        requires
            self.steps@.len() > 0,
        ensures
            *r == self.steps@.last(),
    {
        &self.steps[self.steps.len() - 1]
    }

    /// The place of the first fee split.
    pub fn first_split(&self) -> (r: Option<usize>)
        ensures
            match r {
                Some(i) => i < self.steps@.len() && self.model()[i as int].kind is FeeSplit && (
                forall|j: int| 0 <= j < i ==> !((#[trigger] self.model()[j]).kind is FeeSplit)),
                None => forall|j: int|
                    0 <= j < self.steps@.len() ==> !((#[trigger] self.model()[j]).kind is FeeSplit),
            },
    {
        let mut i: usize = 0;
        while i < self.steps.len()
            invariant
                i <= self.steps@.len(),
                forall|j: int| 0 <= j < i ==> !((#[trigger] self.model()[j]).kind is FeeSplit),
            decreases self.steps@.len() - i,
        {
            if matches!(self.steps[i].kind, StepKind::FeeSplit { .. }) {
                return Some(i);
            }
            i += 1;
        }
        None
    }

    /// The plan as a person is shown it: what it sends and costs, then a line
    /// for each step.
    pub open spec fn text(&self) -> Seq<char> {
        let m = self.model();
        let n = m.len() as int;
        "plan: send "@ + dec(self.amount as nat) + " of asset "@ + dec(self.asset as nat) + " — "@
            + dec(m.len()) + " transaction(s) in "@ + dec(rounds_to(m, n)) + " round(s), total fee "@
            + dec(fees_to(m, n)) + " (asset 0)\n"@ + steps_text(m, n)
    }

    pub fn message(&self) -> (r: String)
        requires
            self.orderly(),
        ensures
            r@ == self.text(),
    {
        let mut t: String = String::new();
        let ghost m = self.model();
        t.append("plan: send ");
        push_dec(&mut t, self.amount);
        t.append(" of asset ");
        push_dec(&mut t, self.asset as u64);
        t.append(" — ");
        push_dec(&mut t, self.steps.len() as u64);
        t.append(" transaction(s) in ");
        push_dec(&mut t, self.rounds() as u64);
        t.append(" round(s), total fee ");
        push_dec_wide(&mut t, self.total_fee());
        t.append(" (asset 0)\n");
        let ghost head = t@;
        let mut i: usize = 0;
        assert(t@ =~= head + steps_text(m, 0));
        while i < self.steps.len()
            invariant
                i <= self.steps@.len(),
                m == self.model(),
                t@ == head + steps_text(m, i as int),
            decreases self.steps@.len() - i,
        {
            push_step_line(&mut t, i, &self.steps[i]);
            i += 1;
            assert(t@ =~= head + steps_text(m, i as int));
        }
        assert(t@ =~= self.text());
        t
    }
}

/// The sources that a step spends.
fn sources(step: &Step) -> (r: Vec<Src>)
    ensures
        r@ == spends(step@),
{
    let mut r: Vec<Src> = Vec::new();
    match &step.kind {
        StepKind::FeeSplit { source, .. } => {
            r.push(*source);
        },
        StepKind::Merge { inputs, fee } => {
            r.push(inputs[0]);
            r.push(inputs[1]);
            r.push(*fee);
        },
        StepKind::Pay { inputs, fee } => {
            let mut i: usize = 0;
            while i < inputs.len()
                invariant
                    i <= inputs@.len(),
                    r@ == inputs@.take(i as int),
                decreases inputs@.len() - i,
            {
                r.push(inputs[i]);
                i += 1;
                assert(inputs@.take(i as int) =~= inputs@.take(i - 1).push(inputs@[i - 1]));
            }
            assert(inputs@.take(i as int) =~= inputs@);
            if let Some(f) = fee {
                r.push(*f);
            }
        },
    }
    assert(r@ =~= spends(step@));
    r
}

/// How a step's transaction is built: from which notes, and with what in the
/// place of the fee.
#[derive(Debug)]
#[allow(inconsistent_fields)]
pub enum BuildCall {
    /// Shape S over one or two notes; the fee comes out of them.
    S { inputs: Vec<Src> },
    /// Shape S over two notes of the asset, a fee note in the third place.
    SMerge { first: Src, second: Src, fee: Src },
    /// Shape P over a note of the asset and a fee note.
    P { note: Src, fee: Src },
    /// Shape P over two notes of the asset, a fee note in the third place.
    PMerge { first: Src, second: Src, fee: Src },
}

/// A [`BuildCall`] as a value.
#[allow(inconsistent_fields)]
pub enum CallModel {
    S { inputs: Seq<Src> },
    SMerge { first: Src, second: Src, fee: Src },
    P { note: Src, fee: Src },
    PMerge { first: Src, second: Src, fee: Src },
}

impl BuildCall {
    pub open spec fn view(&self) -> CallModel {
        match self {
            BuildCall::S { inputs } => CallModel::S { inputs: inputs@ },
            BuildCall::SMerge { first, second, fee } => CallModel::SMerge {
                first: *first,
                second: *second,
                fee: *fee,
            },
            BuildCall::P { note, fee } => CallModel::P { note: *note, fee: *fee },
            BuildCall::PMerge { first, second, fee } => CallModel::PMerge {
                first: *first,
                second: *second,
                fee: *fee,
            },
        }
    }
}

/// A payment that can be built: one note that pays its own fee, or one or two
/// and a fee note.
pub open spec fn buildable(step: StepModel) -> bool {
    step.kind matches KindModel::Pay { inputs, fee } ==> if fee is None {
        inputs.len() == 1
    } else {
        1 <= inputs.len() <= 2
    }
}

/// Two notes of the asset and a fee note, in the step's shape.
pub open spec fn three_call(shape: L2ShapeTag, first: Src, second: Src, fee: Src) -> CallModel {
    if shape == L2ShapeTag::S {
        CallModel::SMerge { first, second, fee }
    } else {
        CallModel::PMerge { first, second, fee }
    }
}

/// How a step is built.
pub open spec fn call_of(step: StepModel) -> CallModel {
    match step.kind {
        KindModel::FeeSplit { source, .. } => CallModel::S { inputs: seq![source] },
        KindModel::Merge { first, second, fee } => three_call(step.shape, first, second, fee),
        KindModel::Pay { inputs, fee } => match fee {
            None => CallModel::S { inputs: seq![inputs[0]] },
            Some(f) => if inputs.len() == 2 {
                three_call(step.shape, inputs[0], inputs[1], f)
            } else if step.shape == L2ShapeTag::S {
                CallModel::S { inputs: seq![inputs[0], f] }
            } else {
                CallModel::P { note: inputs[0], fee: f }
            },
        },
    }
}

/// How a step is built.
pub fn build_call(step: &Step) -> (r: BuildCall)
    requires
        buildable(step@),
    ensures
        r@ == call_of(step@),
{
    let shape_s = matches!(step.shape, L2ShapeTag::S);
    match &step.kind {
        StepKind::FeeSplit { source, .. } => {
            let inputs: Vec<Src> = vec![*source];
            assert(inputs@ =~= seq![*source]);
            BuildCall::S { inputs }
        },
        StepKind::Merge { inputs, fee } => {
            if shape_s {
                BuildCall::SMerge { first: inputs[0], second: inputs[1], fee: *fee }
            } else {
                BuildCall::PMerge { first: inputs[0], second: inputs[1], fee: *fee }
            }
        },
        StepKind::Pay { inputs, fee } => match fee {
            None => {
                let one: Vec<Src> = vec![inputs[0]];
                assert(one@ =~= seq![inputs@[0]]);
                BuildCall::S { inputs: one }
            },
            Some(f) => {
                if inputs.len() == 2 {
                    if shape_s {
                        BuildCall::SMerge { first: inputs[0], second: inputs[1], fee: *f }
                    } else {
                        BuildCall::PMerge { first: inputs[0], second: inputs[1], fee: *f }
                    }
                } else if shape_s {
                    let two: Vec<Src> = vec![inputs[0], *f];
                    assert(two@ =~= seq![inputs@[0], *f]);
                    BuildCall::S { inputs: two }
                } else {
                    BuildCall::P { note: inputs[0], fee: *f }
                }
            },
        },
    }
}

/// An output to build: to the payee or back to this wallet.
#[derive(Clone, Copy, Debug, PartialEq, Eq, Structural)]
pub struct PlannedOut {
    pub to_payee: bool,
    pub value: u64,
    pub asset: u16,
}

/// The outputs of a step: fee splits and merges pay this wallet, the payment
/// pays the payee first.
pub open spec fn outs_of(step: StepModel, asset: u16) -> (PlannedOut, PlannedOut) {
    let of = if step.kind is FeeSplit {
        0
    } else {
        asset
    };
    (
        PlannedOut {
            to_payee: step.kind is Pay,
            value: if step.kind is FeeSplit {
                step.kind->tariff
            } else {
                step.outputs.0
            },
            asset: of,
        },
        PlannedOut {
            to_payee: false,
            value: if step.kind is Merge {
                0
            } else {
                step.outputs.1
            },
            asset: of,
        },
    )
}

/// The outputs of a step.
pub fn planned_outs(step: &Step, asset: u16) -> (r: (PlannedOut, PlannedOut))
    ensures
        r == outs_of(step@, asset),
        r.0.to_payee <==> step.kind is Pay,
        !r.1.to_payee,
        step.kind is FeeSplit ==> r.0.asset == 0 && r.1.asset == 0,
        !(step.kind is FeeSplit) ==> r.0.asset == asset && r.1.asset == asset
            && r.0.value == step.outputs@[0],
        !(step.kind is Merge) ==> r.1.value == step.outputs@[1],
{
    match &step.kind {
        StepKind::FeeSplit { tariff, .. } => (
            PlannedOut { to_payee: false, value: *tariff, asset: 0 },
            PlannedOut { to_payee: false, value: step.outputs[1], asset: 0 },
        ),
        StepKind::Merge { .. } => (
            PlannedOut { to_payee: false, value: step.outputs[0], asset },
            PlannedOut { to_payee: false, value: 0, asset },
        ),
        StepKind::Pay { .. } => (
            PlannedOut { to_payee: true, value: step.outputs[0], asset },
            PlannedOut { to_payee: false, value: step.outputs[1], asset },
        ),
    }
}

/// Output `out` of a step, as it is built.
pub open spec fn built_out(step: StepModel, asset: u16, out: int) -> PlannedOut {
    if out == 0 {
        outs_of(step, asset).0
    } else {
        outs_of(step, asset).1
    }
}

/// What the sources of one asset are worth together.
pub open spec fn worth_in(s: Seq<Src>, asset: u16) -> nat
    decreases s.len(),
{
    if s.len() == 0 {
        0
    } else {
        worth_in(s.drop_last(), asset) + if s.last().of_asset() == asset {
            s.last().worth() as nat
        } else {
            0
        }
    }
}

/// What the outputs of a step hold of one asset.
pub open spec fn built_in(step: StepModel, sent: u16, asset: u16) -> nat {
    let (a, b) = outs_of(step, sent);
    (if a.asset == asset {
        a.value as nat
    } else {
        0
    }) + if b.asset == asset {
        b.value as nat
    } else {
        0
    }
}

/// Over a whole plan the payee is paid once, by exactly the amount: the first
/// output of the last step, and no other, goes to the payee, and is the amount
/// in the asset. Everything else comes back to this wallet, and every note that
/// a step spends and another makes is an output to this wallet of the very value
/// and asset that it is spent for.
pub proof fn law_the_payee_is_paid_once(
    steps: Seq<StepModel>,
    f: Seq<u64>,
    v: Seq<u64>,
    asset: u16,
    amount: u64,
    shape: L2ShapeTag,
    tiers: Tiers,
)
    requires
        is_plan(steps, f, v, asset, amount, shape, tiers),
    ensures
        steps.len() > 0,
        built_out(steps.last(), asset, 0) == (PlannedOut { to_payee: true, value: amount, asset }),
        forall|i: int, out: int|
            0 <= i < steps.len() && 0 <= out < 2 && (#[trigger] built_out(
                steps[i],
                asset,
                out,
            )).to_payee ==> i == steps.len() - 1 && out == 0,
        forall|i: int, x: int|
            0 <= i < steps.len() && 0 <= x < spends(steps[i]).len() ==> (#[trigger] spends(
                steps[i],
            )[x] matches Src::Made { step, out, value, asset: of } ==> step < i && out < 2
                && built_out(steps[step as int], asset, out as int) == (PlannedOut {
                to_payee: false,
                value,
                asset: of,
            })),
{
    law_plan_ends_in_the_payment(steps, f, v, asset, amount, shape, tiers);
    assert forall|i: int, x: int|
        0 <= i < steps.len() && 0 <= x < spends(steps[i]).len() implies (#[trigger] spends(
        steps[i],
    )[x] matches Src::Made { step, out, value, asset: of } ==> step < i && out < 2 && built_out(
        steps[step as int],
        asset,
        out as int,
    ) == (PlannedOut { to_payee: false, value, asset: of })) by {
        law_steps_spend_landed_notes(steps, f, v, asset, amount, shape, tiers, i, x);
        if let Src::Made { step, .. } = spends(steps[i])[x] {
            law_every_step_balances(steps, f, v, asset, amount, shape, tiers, step as int);
        }
    }
}

proof fn lemma_worth_one(s: Seq<Src>, asset: u16)
    requires
        s.len() == 1,
    ensures
        worth_in(s, asset) == if s[0].of_asset() == asset {
            s[0].worth() as nat
        } else {
            0
        },
{
    reveal_with_fuel(worth_in, 2);
    assert(s.drop_last() =~= Seq::empty());
}

proof fn lemma_worth_push(s: Seq<Src>, last: Src, asset: u16)
    ensures
        worth_in(s.push(last), asset) == worth_in(s, asset) + if last.of_asset() == asset {
            last.worth() as nat
        } else {
            0
        },
{
    assert(s.push(last).drop_last() =~= s);
}

/// What a step spends of an asset comes out of it again, but for the fee, which
/// is of asset 0: nothing is made and nothing is lost.
pub proof fn law_a_step_keeps_each_asset(
    steps: Seq<StepModel>,
    f: Seq<u64>,
    v: Seq<u64>,
    asset: u16,
    amount: u64,
    shape: L2ShapeTag,
    tiers: Tiers,
    i: int,
    of: u16,
)
    requires
        is_plan(steps, f, v, asset, amount, shape, tiers),
        0 <= i < steps.len(),
    ensures
        worth_in(spends(steps[i]), of) == built_in(steps[i], asset, of) + if of == 0 {
            steps[i].fee as nat
        } else {
            0
        },
{
    law_every_step_balances(steps, f, v, asset, amount, shape, tiers, i);
    law_plan_ends_in_the_payment(steps, f, v, asset, amount, shape, tiers);
    crate::annulet_laws::lemma_spent_assets(steps, f, v, asset, amount, shape, tiers, i);
    let s = spends(steps[i]);
    match steps[i].kind {
        KindModel::FeeSplit { source, .. } => {
            lemma_worth_one(s, of);
        },
        KindModel::Merge { first, second, fee } => {
            lemma_worth_one(seq![first], of);
            lemma_worth_push(seq![first], second, of);
            lemma_worth_push(seq![first].push(second), fee, of);
            assert(s =~= seq![first].push(second).push(fee));
        },
        KindModel::Pay { inputs, fee } => {
            lemma_worth_sum(inputs, asset, of);
            if let Some(n) = fee {
                lemma_worth_push(inputs, n, of);
                assert(s[inputs.len() as int] == n);
            }
            assert forall|x: int| 0 <= x < inputs.len() implies (#[trigger] inputs[x]).of_asset()
                == asset by {
                assert(s[x] == inputs[x]);
            }
            lemma_worth_sum(inputs, asset, of);
        },
    }
}

proof fn lemma_worth_sum(s: Seq<Src>, asset: u16, of: u16)
    ensures
        (forall|x: int| 0 <= x < s.len() ==> (#[trigger] s[x]).of_asset() == asset) ==> worth_in(
            s,
            of,
        ) == if of == asset {
            crate::annulet_send::sum_of(s)
        } else {
            0
        },
    decreases s.len(),
{
    if s.len() > 0 {
        let front = s.drop_last();
        lemma_worth_sum(front, asset, of);
        if forall|x: int| 0 <= x < s.len() ==> (#[trigger] s[x]).of_asset() == asset {
            assert forall|x: int| 0 <= x < front.len() implies (#[trigger] front[x]).of_asset()
                == asset by {
                assert(front[x] == s[x]);
            }
            assert(s[s.len() - 1].of_asset() == asset);
        }
    }
}

/// The notes that a transaction is built of, in order, a fee note last.
pub open spec fn built_of(call: CallModel) -> Seq<Src> {
    match call {
        CallModel::S { inputs } => inputs,
        CallModel::SMerge { first, second, fee } => seq![first, second, fee],
        CallModel::P { note, fee } => seq![note, fee],
        CallModel::PMerge { first, second, fee } => seq![first, second, fee],
    }
}

/// The transaction of a step is built of exactly the notes that the step spends,
/// in the step's shape: P where the step is of another shape than S, with a fee
/// note in the third place where two notes of the asset are spent.
pub proof fn law_a_step_is_built_of_what_it_spends(step: StepModel)
    requires
        buildable(step),
    ensures
        built_of(call_of(step)) == spends(step),
        call_of(step) is SMerge || call_of(step) is PMerge <==> spends(step).len() == 3,
        call_of(step) is P || call_of(step) is PMerge <==> step.shape != L2ShapeTag::S
            && spends(step).len() > 1,
{
    assert(built_of(call_of(step)) =~= spends(step));
}

/// The outputs of a mint of `amount` and of a redemption of it, on the row of a
/// note that is worth `base`: a mint pays the payee and gives the note back, a
/// redemption gives back what is left of it.
pub open spec fn issue_outs_of(mint: bool, asset: u16, amount: u64, base: u64) -> (
    PlannedOut,
    PlannedOut,
) {
    if mint {
        (
            PlannedOut { to_payee: true, value: amount, asset },
            PlannedOut { to_payee: false, value: base, asset },
        )
    } else {
        (
            PlannedOut { to_payee: false, value: (base - amount) as u64, asset },
            PlannedOut { to_payee: false, value: 0, asset: 0 },
        )
    }
}

/// The outputs of a mint or of a redemption.
pub fn issue_outs(mint: bool, asset: u16, amount: u64, base: u64) -> (r: (PlannedOut, PlannedOut))
    requires
        mint || amount <= base,
    ensures
        r == issue_outs_of(mint, asset, amount, base),
{
    if mint {
        (
            PlannedOut { to_payee: true, value: amount, asset },
            PlannedOut { to_payee: false, value: base, asset },
        )
    } else {
        (
            PlannedOut { to_payee: false, value: base - amount, asset },
            PlannedOut { to_payee: false, value: 0, asset: 0 },
        )
    }
}

/// An issuance changes what there is of the asset by its amount and nothing
/// else: a mint adds it to the note that it is made on, a redemption takes it
/// away, and only a mint pays anyone but this wallet.
pub proof fn law_an_issuance_moves_its_amount(mint: bool, asset: u16, amount: u64, base: u64)
    requires
        mint || amount <= base,
    ensures
        ({
            let (a, b) = issue_outs_of(mint, asset, amount, base);
            &&& a.value + b.value == if mint {
                base + amount
            } else {
                base - amount
            }
            &&& a.asset == asset && (b.asset == asset || b.value == 0)
            &&& a.to_payee == mint && !b.to_payee
            &&& mint ==> a.value == amount
        }),
{
}

/// What running a plan does next.
#[derive(Clone, Copy, Debug, PartialEq, Eq, Structural)]
#[allow(inconsistent_fields)]
pub enum PlanAction {
    /// Build, prove and submit the step at this place.
    Run(usize),
    /// Wait until this output of a step is in the served tree.
    Await { step: usize, out: usize },
}

/// The steps of a round among the first `n`, in their order.
pub open spec fn runs_to(steps: Seq<StepModel>, round: nat, n: int) -> Seq<PlanAction>
    decreases n,
{
    if n <= 0 {
        Seq::empty()
    } else if steps[n - 1].round == round {
        runs_to(steps, round, n - 1).push(PlanAction::Run((n - 1) as usize))
    } else {
        runs_to(steps, round, n - 1)
    }
}

/// What has to be awaited of the first `n` sources: outputs that the round made.
pub open spec fn waits_in(steps: Seq<StepModel>, round: nat, s: Seq<Src>, n: int) -> Seq<PlanAction>
    decreases n,
{
    if n <= 0 {
        Seq::empty()
    } else {
        let before = waits_in(steps, round, s, n - 1);
        match s[n - 1] {
            Src::Made { step, out, .. } => if steps[step as int].round == round {
                before.push(PlanAction::Await { step, out })
            } else {
                before
            },
            Src::Held(_) => before,
        }
    }
}

/// What has to be awaited for the first `n` steps that come in later rounds.
pub open spec fn waits_to(steps: Seq<StepModel>, round: nat, n: int) -> Seq<PlanAction>
    decreases n,
{
    if n <= 0 {
        Seq::empty()
    } else {
        let before = waits_to(steps, round, n - 1);
        let s = spends(steps[n - 1]);
        if steps[n - 1].round > round {
            before + waits_in(steps, round, s, s.len() as int)
        } else {
            before
        }
    }
}

/// A round: its steps, then everything it made that a later one spends.
pub open spec fn round_actions(steps: Seq<StepModel>, round: nat) -> Seq<PlanAction> {
    runs_to(steps, round, steps.len() as int) + waits_to(steps, round, steps.len() as int)
}

/// The first `n` rounds.
pub open spec fn actions_to(steps: Seq<StepModel>, n: int) -> Seq<PlanAction>
    decreases n,
{
    if n <= 0 {
        Seq::empty()
    } else {
        actions_to(steps, n - 1) + round_actions(steps, (n - 1) as nat)
    }
}

/// Every source that is made is made by a step of the plan.
pub open spec fn made_within(steps: Seq<StepModel>) -> bool {
    forall|i: int, x: int|
        0 <= i < steps.len() && 0 <= x < spends(steps[i]).len() ==> (#[trigger] spends(
            steps[i],
        )[x] matches Src::Made { step, .. } ==> step < steps.len())
}

fn push_runs(r: &mut Vec<PlanAction>, steps: &Vec<Step>, round: usize)
    ensures
        final(r)@ == old(r)@ + runs_to(models(steps@), round as nat, steps@.len() as int),
{
    let ghost r0 = r@;
    let mut i: usize = 0;
    assert(r@ =~= r0 + runs_to(models(steps@), round as nat, 0));
    while i < steps.len()
        invariant
            i <= steps@.len(),
            r@ == r0 + runs_to(models(steps@), round as nat, i as int),
        decreases steps@.len() - i,
    {
        if steps[i].round == round {
            r.push(PlanAction::Run(i));
        }
        i += 1;
        assert(r@ =~= r0 + runs_to(models(steps@), round as nat, i as int));
    }
}

fn push_waits(r: &mut Vec<PlanAction>, steps: &Vec<Step>, round: usize)
    requires
        made_within(models(steps@)),
    ensures
        final(r)@ == old(r)@ + waits_to(models(steps@), round as nat, steps@.len() as int),
{
    let ghost r0 = r@;
    let ghost m = models(steps@);
    let mut i: usize = 0;
    assert(r@ =~= r0 + waits_to(m, round as nat, 0));
    while i < steps.len()
        invariant
            i <= steps@.len(),
            m == models(steps@),
            made_within(m),
            r@ == r0 + waits_to(m, round as nat, i as int),
        decreases steps@.len() - i,
    {
        if steps[i].round > round {
            let s = sources(&steps[i]);
            let ghost r1 = r@;
            let mut x: usize = 0;
            assert(r@ =~= r1 + waits_in(m, round as nat, s@, 0));
            while x < s.len()
                invariant
                    x <= s@.len(),
                    i < steps@.len(),
                    m == models(steps@),
                    made_within(m),
                    s@ == spends(m[i as int]),
                    r@ == r1 + waits_in(m, round as nat, s@, x as int),
                decreases s@.len() - x,
            {
                let src: Src = s[x];
                assert(src == spends(m[i as int])[x as int]);
                if let Src::Made { step, out, .. } = src {
                    if steps[step].round == round {
                        r.push(PlanAction::Await { step, out });
                    }
                }
                x += 1;
                assert(r@ =~= r1 + waits_in(m, round as nat, s@, x as int));
            }
        }
        i += 1;
        assert(r@ =~= r0 + waits_to(m, round as nat, i as int));
    }
}

/// What running a plan does, in order: round by round, each round's steps and
/// then a wait for every note that it made and a later one spends.
pub fn schedule(plan: &SendPlan) -> (r: Vec<PlanAction>)
    requires
        plan.orderly(),
        made_within(plan.model()),
    ensures
        r@ == actions_to(
            plan.model(),
            rounds_to(plan.model(), plan.steps@.len() as int) as int,
        ),
{
    let rounds: usize = plan.rounds();
    let mut r: Vec<PlanAction> = Vec::new();
    let mut n: usize = 0;
    assert(r@ =~= actions_to(plan.model(), 0));
    while n < rounds
        invariant
            n <= rounds,
            made_within(plan.model()),
            r@ == actions_to(plan.model(), n as int),
        decreases rounds - n,
    {
        push_runs(&mut r, &plan.steps, n);
        push_waits(&mut r, &plan.steps, n);
        n += 1;
        assert(r@ =~= actions_to(plan.model(), n as int));
    }
    r
}

proof fn lemma_runs_has(steps: Seq<StepModel>, round: nat, n: int, i: int)
    requires
        0 <= i < n <= steps.len() <= usize::MAX,
        steps[i].round == round,
    ensures
        runs_to(steps, round, n).contains(PlanAction::Run(i as usize)),
    decreases n,
{
    let r = runs_to(steps, round, n);
    if i == n - 1 {
        assert(r[r.len() - 1] == PlanAction::Run(i as usize));
    } else {
        lemma_runs_has(steps, round, n - 1, i);
        let before = runs_to(steps, round, n - 1);
        let k = choose|k: int| 0 <= k < before.len() && before[k] == PlanAction::Run(i as usize);
        assert(r[k] == before[k]);
    }
}

proof fn lemma_waits_in_has(steps: Seq<StepModel>, round: nat, s: Seq<Src>, n: int, x: int)
    requires
        0 <= x < n <= s.len(),
        s[x] matches Src::Made { step, .. } && steps[step as int].round == round,
    ensures
        s[x] matches Src::Made { step, out, .. } && waits_in(steps, round, s, n).contains(
            PlanAction::Await { step, out },
        ),
    decreases n,
{
    let r = waits_in(steps, round, s, n);
    if x == n - 1 {
        if let Src::Made { step, out, .. } = s[x] {
            assert(r[r.len() - 1] == PlanAction::Await { step, out });
        }
    } else {
        lemma_waits_in_has(steps, round, s, n - 1, x);
        let before = waits_in(steps, round, s, n - 1);
        if let Src::Made { step, out, .. } = s[x] {
            let k = choose|k: int|
                0 <= k < before.len() && before[k] == (PlanAction::Await { step, out });
            assert(r[k] == before[k]);
        }
    }
}

proof fn lemma_waits_has(steps: Seq<StepModel>, round: nat, n: int, i: int, x: int)
    requires
        0 <= i < n <= steps.len(),
        steps[i].round > round,
        0 <= x < spends(steps[i]).len(),
        spends(steps[i])[x] matches Src::Made { step, .. } && steps[step as int].round == round,
    ensures
        spends(steps[i])[x] matches Src::Made { step, out, .. } && waits_to(
            steps,
            round,
            n,
        ).contains(PlanAction::Await { step, out }),
    decreases n,
{
    let r = waits_to(steps, round, n);
    let before = waits_to(steps, round, n - 1);
    if let Src::Made { step, out, .. } = spends(steps[i])[x] {
        let act = PlanAction::Await { step, out };
        if i == n - 1 {
            let s = spends(steps[i]);
            let more = waits_in(steps, round, s, s.len() as int);
            lemma_waits_in_has(steps, round, s, s.len() as int, x);
            let k = choose|k: int| 0 <= k < more.len() && more[k] == act;
            assert(r[before.len() + k] == act);
        } else {
            lemma_waits_has(steps, round, n - 1, i, x);
            let k = choose|k: int| 0 <= k < before.len() && before[k] == act;
            assert(r[k] == act);
        }
    }
}

proof fn lemma_actions_has(steps: Seq<StepModel>, round: nat, n: int, act: PlanAction)
    requires
        round < n,
        round_actions(steps, round).contains(act),
    ensures
        actions_to(steps, n).contains(act),
    decreases n,
{
    let before = actions_to(steps, n - 1);
    let more = round_actions(steps, (n - 1) as nat);
    let r = actions_to(steps, n);
    if round == n - 1 {
        let k = choose|k: int| 0 <= k < more.len() && more[k] == act;
        assert(r[before.len() + k] == act);
    } else {
        lemma_actions_has(steps, round, n - 1, act);
        let k = choose|k: int| 0 <= k < before.len() && before[k] == act;
        assert(r[k] == act);
    }
}

/// A step is run in its own round, and before that round begins every note
/// that it spends and another step makes was made and awaited.
pub proof fn law_notes_are_awaited_before_they_are_spent(
    steps: Seq<StepModel>,
    i: int,
    x: int,
)
    requires
        steps.len() <= usize::MAX,
        0 <= i < steps.len(),
        0 <= x < spends(steps[i]).len(),
        spends(steps[i])[x] matches Src::Made { step, .. } ==> step < steps.len()
            && steps[step as int].round < steps[i].round,
    ensures
        round_actions(steps, steps[i].round).contains(PlanAction::Run(i as usize)),
        spends(steps[i])[x] matches Src::Made { step, out, .. } ==> {
            let before = actions_to(steps, steps[i].round as int);
            before.contains(PlanAction::Run(step)) && before.contains(
                PlanAction::Await { step, out },
            )
        },
{
    let n = steps.len() as int;
    lemma_runs_has(steps, steps[i].round, n, i);
    let own = runs_to(steps, steps[i].round, n);
    let k = choose|k: int| 0 <= k < own.len() && own[k] == PlanAction::Run(i as usize);
    assert(round_actions(steps, steps[i].round)[k] == own[k]);
    if let Src::Made { step, out, .. } = spends(steps[i])[x] {
        let round = steps[step as int].round;
        let all = round_actions(steps, round);
        let runs = runs_to(steps, round, n);
        let waits = waits_to(steps, round, n);
        lemma_runs_has(steps, round, n, step as int);
        lemma_waits_has(steps, round, n, i, x);
        let a = choose|a: int| 0 <= a < runs.len() && runs[a] == PlanAction::Run(step);
        let b = choose|b: int|
            0 <= b < waits.len() && waits[b] == (PlanAction::Await { step, out });
        assert(all[a] == runs[a]);
        assert(all[runs.len() + b] == waits[b]);
        lemma_actions_has(steps, round, steps[i].round as int, PlanAction::Run(step));
        lemma_actions_has(steps, round, steps[i].round as int, PlanAction::Await { step, out });
    }
}

/// A plan can be scheduled, and each of its steps built where it pays anything.
pub proof fn law_plans_can_be_run(
    steps: Seq<StepModel>,
    f: Seq<u64>,
    v: Seq<u64>,
    asset: u16,
    amount: u64,
    shape: L2ShapeTag,
    tiers: Tiers,
)
    requires
        planned(f, v, asset, amount, shape, tiers) == Ok::<Seq<StepModel>, PlanFault>(steps),
        countable(steps, f, v),
    ensures
        made_within(steps),
        amount > 0 ==> forall|i: int| 0 <= i < steps.len() ==> buildable(#[trigger] steps[i]),
{
    if asset != 0 {
        assert forall|i: int, x: int|
            0 <= i < steps.len() && 0 <= x < spends(steps[i]).len() implies (#[trigger] spends(
            steps[i],
        )[x] matches Src::Made { step, .. } ==> step < steps.len()) by {
            law_steps_spend_landed_notes(steps, f, v, asset, amount, shape, tiers, i, x);
        }
        law_plan_ends_in_the_payment(steps, f, v, asset, amount, shape, tiers);
    } else {
        lemma_least(f, capped(amount, tiers.s), f.len() as int);
    }
}

/// What is run and what is awaited: round by round, and within a round the steps
/// in their order.
proof fn lemma_runs_are(steps: Seq<StepModel>, round: nat, n: int)
    requires
        0 <= n <= steps.len() <= usize::MAX,
    ensures
        forall|k: int|
            0 <= k < runs_to(steps, round, n).len() ==> (#[trigger] runs_to(steps, round, n)[k] matches
                PlanAction::Run(i) && i < n && steps[i as int].round == round),
        forall|k: int, l: int|
            0 <= k < l < runs_to(steps, round, n).len() ==> #[trigger] runs_to(steps, round, n)[k]
                != #[trigger] runs_to(steps, round, n)[l],
    decreases n,
{
    if n > 0 {
        lemma_runs_are(steps, round, n - 1);
        let before = runs_to(steps, round, n - 1);
        let r = runs_to(steps, round, n);
        assert forall|k: int| 0 <= k < r.len() implies (#[trigger] r[k] matches PlanAction::Run(i) && i
            < n && steps[i as int].round == round) by {
            if k < before.len() {
                assert(r[k] == before[k]);
            }
        }
        assert forall|k: int, l: int| 0 <= k < l < r.len() implies #[trigger] r[k] != #[trigger] r[l] by {
            assert(r[k] == before[k]);
            if l < before.len() {
                assert(r[l] == before[l]);
            }
        }
    }
}

proof fn lemma_waits_in_are(steps: Seq<StepModel>, round: nat, s: Seq<Src>, n: int)
    requires
        0 <= n <= s.len(),
    ensures
        forall|k: int|
            0 <= k < waits_in(steps, round, s, n).len() ==> (#[trigger] waits_in(
                steps,
                round,
                s,
                n,
            )[k] matches PlanAction::Await { step, out } && steps[step as int].round == round
                && exists|x: int|
                0 <= x < n && (#[trigger] s[x] matches Src::Made { step: a, out: b, .. } && a == step
                    && b == out)),
    decreases n,
{
    if n > 0 {
        lemma_waits_in_are(steps, round, s, n - 1);
        let before = waits_in(steps, round, s, n - 1);
        let r = waits_in(steps, round, s, n);
        assert forall|k: int| 0 <= k < r.len() implies (#[trigger] r[k] matches PlanAction::Await {
            step,
            out,
        } && steps[step as int].round == round && exists|x: int|
            0 <= x < n && (#[trigger] s[x] matches Src::Made { step: a, out: b, .. } && a == step && b
                == out)) by {
            if k < before.len() {
                assert(r[k] == before[k]);
                if let PlanAction::Await { step, out } = before[k] {
                    let x = choose|x: int|
                        0 <= x < n - 1 && (#[trigger] s[x] matches Src::Made { step: a, out: b, .. }
                            && a == step && b == out);
                    assert(s[x] is Made);
                }
            } else {
                assert(s[n - 1] is Made);
            }
        }
    }
}

/// Step `i` spends output `out` of step `step`.
pub open spec fn spends_made(steps: Seq<StepModel>, i: int, step: usize, out: usize) -> bool {
    exists|x: int|
        0 <= x < spends(steps[i]).len() && (#[trigger] spends(steps[i])[x] matches Src::Made {
            step: a,
            out: b,
            ..
        } && a == step && b == out)
}

/// A step of a later round spends output `out` of step `step`.
pub open spec fn spent_later(steps: Seq<StepModel>, step: usize, out: usize) -> bool {
    exists|i: int|
        0 <= i < steps.len() && (#[trigger] steps[i]).round > steps[step as int].round && spends_made(
            steps,
            i,
            step,
            out,
        )
}

proof fn lemma_waits_are(steps: Seq<StepModel>, round: nat, n: int)
    requires
        0 <= n <= steps.len(),
    ensures
        forall|k: int|
            0 <= k < waits_to(steps, round, n).len() ==> (#[trigger] waits_to(steps, round, n)[k] matches
                PlanAction::Await { step, out } && steps[step as int].round == round && exists|i: int|
                0 <= i < n && (#[trigger] steps[i]).round > round && spends_made(steps, i, step, out)),
    decreases n,
{
    if n > 0 {
        lemma_waits_are(steps, round, n - 1);
        let before = waits_to(steps, round, n - 1);
        let r = waits_to(steps, round, n);
        let s = spends(steps[n - 1]);
        let more = waits_in(steps, round, s, s.len() as int);
        lemma_waits_in_are(steps, round, s, s.len() as int);
        assert forall|k: int| 0 <= k < r.len() implies (#[trigger] r[k] matches PlanAction::Await {
            step,
            out,
        } && steps[step as int].round == round && exists|i: int|
            0 <= i < n && (#[trigger] steps[i]).round > round && spends_made(steps, i, step, out)) by {
            if k < before.len() {
                assert(r[k] == before[k]);
                if let PlanAction::Await { step, out } = before[k] {
                    let i = choose|i: int|
                        0 <= i < n - 1 && (#[trigger] steps[i]).round > round && spends_made(
                            steps,
                            i,
                            step,
                            out,
                        );
                    assert(steps[i].round > round);
                }
            } else {
                assert(r[k] == more[k - before.len()]);
                if let PlanAction::Await { step, out } = more[k - before.len()] {
                    let x = choose|x: int|
                        0 <= x < s.len() && (#[trigger] s[x] matches Src::Made { step: a, out: b, .. }
                            && a == step && b == out);
                    assert(spends(steps[n - 1])[x] is Made);
                    assert(spends_made(steps, n - 1, step, out));
                    assert(steps[n - 1].round > round);
                }
            }
        }
    }
}

proof fn lemma_actions_are(steps: Seq<StepModel>, n: int)
    requires
        0 <= n,
        steps.len() <= usize::MAX,
    ensures
        forall|k: int|
            0 <= k < actions_to(steps, n).len() ==> match #[trigger] actions_to(steps, n)[k] {
                PlanAction::Run(i) => i < steps.len() && steps[i as int].round < n,
                PlanAction::Await { step, out } => steps[step as int].round < n && spent_later(steps, step, out),
            },
        forall|k: int, l: int|
            0 <= k < l < actions_to(steps, n).len() && #[trigger] actions_to(steps, n)[k] is Run
                ==> actions_to(steps, n)[k] != #[trigger] actions_to(steps, n)[l],
    decreases n,
{
    if n > 0 {
        let round = (n - 1) as nat;
        lemma_actions_are(steps, n - 1);
        lemma_runs_are(steps, round, steps.len() as int);
        lemma_waits_are(steps, round, steps.len() as int);
        let before = actions_to(steps, n - 1);
        let runs = runs_to(steps, round, steps.len() as int);
        let waits = waits_to(steps, round, steps.len() as int);
        let r = actions_to(steps, n);
        let a = before.len() as int;
        let b = a + runs.len();
        assert(r =~= before + runs + waits);
        assert forall|k: int| 0 <= k < r.len() implies match #[trigger] r[k] {
            PlanAction::Run(i) => i < steps.len() && steps[i as int].round < n,
            PlanAction::Await { step, out } => steps[step as int].round < n && spent_later(steps, step, out),
        } by {
            if k < a {
                assert(r[k] == before[k]);
            } else if k < b {
                assert(r[k] == runs[k - a]);
            } else {
                assert(r[k] == waits[k - b]);
            }
        }
        assert forall|k: int, l: int| 0 <= k < l < r.len() && #[trigger] r[k] is Run implies r[k]
            != #[trigger] r[l] by {
            if l < a {
                assert(r[k] == before[k] && r[l] == before[l]);
            } else if l < b {
                assert(r[l] == runs[l - a]);
                if k < a {
                    assert(r[k] == before[k]);
                } else {
                    assert(r[k] == runs[k - a]);
                }
            } else {
                assert(r[l] == waits[l - b]);
            }
        }
    }
}

proof fn lemma_rounds(steps: Seq<StepModel>, n: int)
    requires
        0 <= n <= steps.len(),
    ensures
        forall|i: int| 0 <= i < n ==> (#[trigger] steps[i]).round < rounds_to(steps, n),
        n > 0 ==> exists|i: int| 0 <= i < n && (#[trigger] steps[i]).round + 1 == rounds_to(steps, n),
        n == 0 ==> rounds_to(steps, n) == 0,
    decreases n,
{
    if n > 0 {
        lemma_rounds(steps, n - 1);
        if steps[n - 1].round + 1 > rounds_to(steps, n - 1) {
            assert(steps[n - 1].round + 1 == rounds_to(steps, n));
        } else {
            let i = choose|i: int|
                0 <= i < n - 1 && (#[trigger] steps[i]).round + 1 == rounds_to(steps, n - 1);
            assert(steps[i].round + 1 == rounds_to(steps, n));
        }
    }
}

proof fn lemma_actions_grow(steps: Seq<StepModel>, m: int, n: int)
    requires
        0 <= m <= n,
    ensures
        actions_to(steps, m).len() <= actions_to(steps, n).len(),
        actions_to(steps, n).take(actions_to(steps, m).len() as int) == actions_to(steps, m),
    decreases n,
{
    let a = actions_to(steps, m);
    if m == n {
        assert(a.take(a.len() as int) =~= a);
    } else {
        lemma_actions_grow(steps, m, n - 1);
        let b = actions_to(steps, n - 1);
        assert(actions_to(steps, n).take(a.len() as int) =~= b.take(a.len() as int));
    }
}

/// Every note that step `i` spends and another step makes was made and awaited.
pub open spec fn is_ready(steps: Seq<StepModel>, front: Seq<PlanAction>, i: int) -> bool {
    forall|x: int|
        0 <= x < spends(steps[i]).len() ==> (#[trigger] spends(steps[i])[x] matches Src::Made {
            step,
            out,
            ..
        } ==> front.contains(PlanAction::Run(step)) && front.contains(
            PlanAction::Await { step, out },
        ))
}

/// Running a plan runs each of its steps, each once, and nothing else; it waits
/// only for notes that a later round spends. Before a step is run, every note
/// that it spends and another step makes was made and then awaited.
pub proof fn law_each_step_is_run_once_behind_its_notes(steps: Seq<StepModel>, actions: Seq<PlanAction>)
    requires
        steps.len() <= usize::MAX,
        actions == actions_to(steps, rounds_to(steps, steps.len() as int) as int),
        forall|i: int, x: int|
            0 <= i < steps.len() && 0 <= x < spends(steps[i]).len() ==> (#[trigger] spends(
                steps[i],
            )[x] matches Src::Made { step, .. } ==> step < steps.len() && steps[step as int].round
                < steps[i].round),
    ensures
        forall|i: int|
            0 <= i < steps.len() ==> #[trigger] actions.contains(PlanAction::Run(i as usize)),
        forall|k: int|
            0 <= k < actions.len() ==> match #[trigger] actions[k] {
                PlanAction::Run(i) => i < steps.len(),
                PlanAction::Await { step, out } => spent_later(steps, step, out),
            },
        forall|k: int, l: int|
            0 <= k < l < actions.len() && #[trigger] actions[k] is Run ==> actions[k]
                != #[trigger] actions[l],
        forall|k: int|
            0 <= k < actions.len() && #[trigger] actions[k] is Run ==> is_ready(
                steps,
                actions.take(k),
                actions[k]->Run_0 as int,
            ),
{
    let n = steps.len() as int;
    let rounds = rounds_to(steps, n) as int;
    lemma_rounds(steps, n);
    lemma_actions_are(steps, rounds);
    assert forall|i: int| 0 <= i < n implies #[trigger] actions.contains(PlanAction::Run(i as usize)) by {
        lemma_runs_has(steps, steps[i].round, n, i);
        let own = runs_to(steps, steps[i].round, n);
        let k = choose|k: int| 0 <= k < own.len() && own[k] == PlanAction::Run(i as usize);
        assert(round_actions(steps, steps[i].round)[k] == own[k]);
        lemma_actions_has(steps, steps[i].round, rounds, PlanAction::Run(i as usize));
    }
    assert forall|k: int| 0 <= k < actions.len() && #[trigger] actions[k] is Run implies is_ready(
        steps,
        actions.take(k),
        actions[k]->Run_0 as int,
    ) by {
        let i = actions[k]->Run_0 as int;
        let front = actions.take(k);
        let r = steps[i].round as int;
        lemma_actions_grow(steps, r, rounds);
        let before = actions_to(steps, r);
        lemma_actions_are(steps, r);
        if k < before.len() {
            assert(before[k] == actions.take(before.len() as int)[k]);
        }
        assert forall|x: int| 0 <= x < spends(steps[i]).len() implies (#[trigger] spends(
            steps[i],
        )[x] matches Src::Made { step, out, .. } ==> front.contains(PlanAction::Run(step))
            && front.contains(PlanAction::Await { step, out })) by {
            law_notes_are_awaited_before_they_are_spent(steps, i, x);
            if let Src::Made { step, out, .. } = spends(steps[i])[x] {
                let a = choose|a: int| 0 <= a < before.len() && before[a] == PlanAction::Run(step);
                let b = choose|b: int|
                    0 <= b < before.len() && before[b] == (PlanAction::Await { step, out });
                assert(actions.take(before.len() as int)[a] == before[a]);
                assert(actions.take(before.len() as int)[b] == before[b]);
                assert(front[a] == PlanAction::Run(step));
                assert(front[b] == (PlanAction::Await { step, out }));
            }
        }
    }
}

/// What a session starts from, once the endpoint has been scanned: the params
/// are for the genesis that it serves, and the balance is known.
pub fn session_index(
    served: &[u8; 32],
    params: &[u8; 32],
    index: Option<AssetIndex>,
) -> (r: Result<AssetIndex, SendRefusal>)
    ensures
        match r {
            Ok(ix) => served@ == params@ && index == Some(ix),
            Err(e) => if served@ != params@ {
                e == SendRefusal::ParamsGenesisMismatch
            } else {
                index is None && e == SendRefusal::NoBalance
            },
        },
{
    if !eq32(served, params) {
        return Err(SendRefusal::ParamsGenesisMismatch);
    }
    match index {
        Some(ix) => Ok(ix),
        None => Err(SendRefusal::NoBalance),
    }
}

/// The plan that a send shows: none for an address that a policy asset has
/// frozen, none where nothing can be planned, none to an address without an
/// encapsulation key.
pub fn send_plan(
    index: &AssetIndex,
    asset: u16,
    amount: u64,
    shape: L2ShapeTag,
    tiers: Tiers,
    frozen: bool,
    payee_has_key: bool,
) -> (r: Result<SendPlan, SendRefusal>)
    ensures
        ({
            let f = values(index.held(0));
            let v = values(index.held(asset));
            let plan = planned(f, v, asset, amount, shape, tiers);
            if shape == L2ShapeTag::P && frozen {
                r == Err::<SendPlan, SendRefusal>(
                    SendRefusal::Spend(SpendError::Frozen { asset: asset as u64 }),
                )
            } else if plan is Err {
                r is Err && refused_as(r->Err_0, plan->Err_0, asset, amount, tiers.tier(shape))
            } else if !payee_has_key {
                r matches Err(SendRefusal::Spend(SpendError::Served(why))) && why@
                    == "the recipient address has no valid ek"@
            } else {
                r matches Ok(p) && p.asset == asset && p.amount == amount && p.model()
                    == plan->Ok_0 && p.orderly() && made_within(p.model())
            }
        }),
{
    if matches!(shape, L2ShapeTag::P) && frozen {
        return Err(SendRefusal::Spend(SpendError::Frozen { asset: asset as u64 }));
    }
    match plan_send(index, asset, amount, shape, tiers) {
        Err(e) => Err(e),
        Ok(plan) => {
            if !payee_has_key {
                return Err(
                    SendRefusal::Spend(
                        SpendError::Served("the recipient address has no valid ek".to_owned()),
                    ),
                );
            }
            let fees = index.spendable(0);
            let notes = index.spendable(asset);
            assert(fees@.len() == fees.len() && notes@.len() == notes.len());
            assert(plan.steps@.len() == plan.steps.len());
            proof {
                law_plans_can_be_run(
                    plan.model(),
                    values(index.held(0)),
                    values(index.held(asset)),
                    asset,
                    amount,
                    shape,
                    tiers,
                );
            }
            Ok(plan)
        },
    }
}

/// The plan goes on where it was accepted; nothing is proved where it was not.
pub fn accept(plan: SendPlan, accepted: bool) -> (r: Result<SendPlan, SendRefusal>)
    ensures
        r == if accepted {
            Ok::<SendPlan, SendRefusal>(plan)
        } else {
            Err(SendRefusal::PlanDeclined)
        },
{
    if accepted {
        Ok(plan)
    } else {
        Err(SendRefusal::PlanDeclined)
    }
}

/// Where an exact fee note comes from.
#[derive(Clone, Copy, Debug, PartialEq, Eq, Structural)]
#[allow(inconsistent_fields)]
pub enum FeeSource {
    /// The asset-0 note at this place is one.
    Held(usize),
    /// Split one off the asset-0 note at this place; `rest` comes back.
    Split { at: usize, rest: u64 },
}

/// The place of the first of the notes worth exactly `tariff`.
pub open spec fn exact_at(v: Seq<u64>, tariff: u64, i: int) -> Option<int>
    decreases v.len() - i,
{
    if i < 0 || i >= v.len() {
        None
    } else if v[i] == tariff {
        Some(i)
    } else {
        exact_at(v, tariff, i + 1)
    }
}

/// An exact fee note that the wallet holds, or the smallest asset-0 note that
/// one can be split off.
pub fn fee_source(index: &AssetIndex, tariff: u64, s_tier: u64) -> (r: Result<
    FeeSource,
    SendRefusal,
>)
    ensures
        ({
            let v = values(index.held(0));
            let needs = tariff + s_tier;
            match exact_at(v, tariff, 0) {
                Some(i) => r matches Ok(FeeSource::Held(at)) && at == i,
                None => if needs <= u64::MAX && least(v, needs as u64) is Some {
                    r matches Ok(FeeSource::Split { at, rest }) && least(v, needs as u64) == Some(
                        at as int,
                    ) && rest == v[at as int] - needs
                } else {
                    r == Err::<FeeSource, SendRefusal>(
                        SendRefusal::NoFeeSource { tariff, split_needs: needs as u128 },
                    )
                },
            }
        }),
        // A held note is of exactly the tariff; one that is split gives the
        // tariff, its own fee and the rest, and is the smallest that can.
        r matches Ok(FeeSource::Held(at)) ==> at < index.held(0).len() && index.held(
            0,
        )[at as int].value == tariff,
        r matches Ok(FeeSource::Split { at, rest }) ==> at < index.held(0).len() && index.held(
            0,
        )[at as int].value == tariff + s_tier + rest && forall|i: int|
            0 <= i < index.held(0).len() ==> (#[trigger] index.held(0)[i]).value != tariff && (
            index.held(0)[i].value >= tariff + s_tier ==> index.held(0)[at as int].value
                <= index.held(0)[i].value),
        r is Err ==> forall|i: int|
            0 <= i < index.held(0).len() ==> (#[trigger] index.held(0)[i]).value != tariff
                && index.held(0)[i].value < tariff + s_tier,
{
    let notes = index.spendable(0);
    let ghost v = values(notes@);
    let mut i: usize = 0;
    while i < notes.len()
        invariant
            i <= notes@.len(),
            notes@ == index.held(0),
            v == values(notes@),
            exact_at(v, tariff, 0) == exact_at(v, tariff, i as int),
            forall|k: int| 0 <= k < i ==> (#[trigger] notes@[k]).value != tariff,
        decreases notes@.len() - i,
    {
        if notes[i].value == tariff {
            return Ok(FeeSource::Held(i));
        }
        i += 1;
    }
    let needs: u128 = tariff as u128 + s_tier as u128;
    if needs <= u64::MAX as u128 {
        if let Some(at) = smallest_covering(notes, needs as u64) {
            proof {
                lemma_least(v, needs as u64, v.len() as int);
            }
            return Ok(FeeSource::Split { at, rest: notes[at].value - needs as u64 });
        }
    }
    Err(SendRefusal::NoFeeSource { tariff, split_needs: needs })
}

/// What a look at the served tree comes to while a note is awaited.
#[derive(Debug, PartialEq, Eq)]
pub enum WaitStep {
    /// The note is in the tree.
    Landed,
    /// Look again.
    Again,
    /// The time is up.
    GiveUp(SendRefusal),
}

/// Waits for a note until it is in the tree or the time is up.
pub fn wait_step(in_tree: bool, waited_ms: u128, timeout_ms: u128, timeout_secs: u64) -> (r: WaitStep)
    ensures
        r == if in_tree {
            WaitStep::Landed
        } else if waited_ms >= timeout_ms {
            WaitStep::GiveUp(SendRefusal::SplitNotIncluded { waited_secs: timeout_secs })
        } else {
            WaitStep::Again
        },
{
    if in_tree {
        WaitStep::Landed
    } else if waited_ms >= timeout_ms {
        WaitStep::GiveUp(SendRefusal::SplitNotIncluded { waited_secs: timeout_secs })
    } else {
        WaitStep::Again
    }
}

} // verus!
