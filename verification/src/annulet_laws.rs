//! What holds of every plan of a send on an Annulet net.
use vstd::prelude::*;

#[allow(unused_imports)]
use crate::annulet_choice::{
    gathered_at, in_play, is_choice, lemma_gathered_are_fewest, lemma_gathered_at,
    lemma_merge_down_counts, worth_at,
};
#[allow(unused_imports)]
use crate::annulet_send::{
    all_placed, all_ready, asset_known, capped, chosen_for, exact_to, fee_known, fees_of, gathered, holdings,
    in_pair, laid_out, later, least, lemma_chosen, lemma_exact, lemma_fees, lemma_gathered, lemma_gathered_short,
    lemma_greatest, lemma_least, lemma_split_pick, lemma_split_start, lemma_splits, lemma_sum_one,
    lemma_sum_placed, merge_model, others_to, output, pay_model, placed, planned, ready,
    sound_merges, sound_split, sound_splits, split_once, split_pick, split_source, split_start,
    splits, stock, sum_of, with_merges, KindModel, L2ShapeTag, PlanFault,
    SplitState, Src, StepModel, Tiers,
};

verus! {

/// The sources that a step spends.
pub open spec fn spends(step: StepModel) -> Seq<Src> {
    match step.kind {
        KindModel::FeeSplit { source, .. } => seq![source],
        KindModel::Merge { first, second, fee } => seq![first, second, fee],
        KindModel::Pay { inputs, fee } => match fee {
            Some(f) => inputs.push(f),
            None => inputs,
        },
    }
}

/// The step moves as much as it spends: what goes in comes out again, and the
/// fee is paid from the same note or by a fee note of exactly its amount.
pub open spec fn balanced(step: StepModel) -> bool {
    match step.kind {
        KindModel::FeeSplit { source, tariff } => step.outputs.0 == tariff && source.worth()
            == step.outputs.0 + step.outputs.1 + step.fee,
        KindModel::Merge { first, second, fee } => first.worth() + second.worth()
            == step.outputs.0 + step.outputs.1 && step.outputs.1 == 0 && fee.worth() == step.fee,
        KindModel::Pay { inputs, fee } => match fee {
            Some(f) => sum_of(inputs) == step.outputs.0 + step.outputs.1 && f.worth() == step.fee,
            None => sum_of(inputs) == step.outputs.0 + step.outputs.1 + step.fee,
        },
    }
}

/// The asset of the notes that a step pays back to this wallet.
pub open spec fn own_asset(step: StepModel, asset: u16) -> u16 {
    if step.kind is FeeSplit {
        0
    } else {
        asset
    }
}

/// Step `i` can spend `src`: the wallet holds it, or an earlier step in an
/// earlier round makes it, of that value and asset, for this wallet.
pub open spec fn landed(
    steps: Seq<StepModel>,
    i: int,
    src: Src,
    f: Seq<u64>,
    v: Seq<u64>,
    asset: u16,
) -> bool {
    match src {
        Src::Held(n) => {
            ||| n.asset == 0 && n.at < f.len() && n.value == f[n.at as int]
            ||| n.asset == asset && n.at < v.len() && n.value == v[n.at as int]
        },
        Src::Made { step, out, value, asset: of } => {
            &&& step < i
            &&& steps[step as int].round < steps[i].round
            &&& !(steps[step as int].kind is Pay)
            &&& out <= 1 && value == output(steps[step as int], out)
            &&& of == own_asset(steps[step as int], asset)
        },
    }
}

/// Merge `k` stands behind the splits and the merges before it.
pub open spec fn merge_at(
    steps: Seq<StepModel>,
    pairs: Seq<(Src, Src)>,
    fees: Seq<Src>,
    base: nat,
    shape: L2ShapeTag,
    tariff: u64,
    k: int,
) -> bool {
    steps[base + k] == merge_model(pairs, fees, steps.take(base + k), base, shape, tariff, k)
}

/// What a plan of `n` splits and `m` merges is made of.
pub open spec fn parts(
    steps: Seq<StepModel>,
    st: SplitState,
    inputs: Seq<Src>,
    pairs: Seq<(Src, Src)>,
    fees: Seq<Src>,
    shape: L2ShapeTag,
    tariff: u64,
    amount: u64,
) -> bool {
    let base = st.steps.len();
    let n = pairs.len();
    &&& steps.len() == base + n + 1
    &&& forall|i: int| 0 <= i < base ==> #[trigger] steps[i] == st.steps[i]
    &&& forall|k: int|
        0 <= k < n ==> #[trigger] merge_at(steps, pairs, fees, base, shape, tariff, k)
    &&& steps[base + n as int] == pay_model(
        all_placed(inputs, base),
        fees[n as int],
        steps.take(base + n as int),
        shape,
        tariff,
        amount,
    )
}

proof fn lemma_with_merges(
    pairs: Seq<(Src, Src)>,
    fees: Seq<Src>,
    start: Seq<StepModel>,
    shape: L2ShapeTag,
    tariff: u64,
    k: int,
)
    requires
        0 <= k,
    ensures
        with_merges(pairs, fees, start, shape, tariff, k).len() == start.len() + k,
        forall|i: int|
            0 <= i < start.len() ==> #[trigger] with_merges(pairs, fees, start, shape, tariff, k)[i]
                == start[i],
        forall|i: int|
            start.len() <= i < start.len() + k ==> #[trigger] with_merges(
                pairs,
                fees,
                start,
                shape,
                tariff,
                k,
            )[i] == merge_model(
                pairs,
                fees,
                with_merges(pairs, fees, start, shape, tariff, k).take(i),
                start.len(),
                shape,
                tariff,
                i - start.len(),
            ),
    decreases k,
{
    if k > 0 {
        lemma_with_merges(pairs, fees, start, shape, tariff, k - 1);
        let before = with_merges(pairs, fees, start, shape, tariff, k - 1);
        let now = with_merges(pairs, fees, start, shape, tariff, k);
        assert forall|i: int| start.len() <= i < start.len() + k implies #[trigger] now[i]
            == merge_model(
            pairs,
            fees,
            now.take(i),
            start.len(),
            shape,
            tariff,
            i - start.len(),
        ) by {
            if i < start.len() + k - 1 {
                assert(now.take(i) =~= before.take(i));
                assert(now[i] == before[i]);
            } else {
                assert(now.take(i) =~= before);
            }
        }
    }
}

proof fn lemma_laid_out(
    st: SplitState,
    inputs: Seq<Src>,
    pairs: Seq<(Src, Src)>,
    fees: Seq<Src>,
    shape: L2ShapeTag,
    tariff: u64,
    amount: u64,
)
    ensures
        parts(
            laid_out((inputs, pairs), fees, st.steps, shape, tariff, amount),
            st,
            inputs,
            pairs,
            fees,
            shape,
            tariff,
            amount,
        ),
{
    let n = pairs.len() as int;
    let base = st.steps.len();
    let mid = with_merges(pairs, fees, st.steps, shape, tariff, n);
    let steps = laid_out((inputs, pairs), fees, st.steps, shape, tariff, amount);
    lemma_with_merges(pairs, fees, st.steps, shape, tariff, n);
    assert(steps.take(base + n) =~= mid);
    assert forall|i: int| 0 <= i < base implies #[trigger] steps[i] == st.steps[i] by {
        assert(steps[i] == mid[i]);
    }
    assert forall|k: int| 0 <= k < n implies #[trigger] merge_at(
        steps,
        pairs,
        fees,
        base,
        shape,
        tariff,
        k,
    ) by {
        let i = base + k;
        assert(steps.take(i) =~= mid.take(i));
        assert(steps[i] == mid[i]);
    }
}

/// The fee notes of a plan: known asset-0 notes of exactly the tariff, each
/// once, none of them the source of a fee split.
pub open spec fn sound_fees(fees: Seq<Src>, st: SplitState, f: Seq<u64>, tariff: u64) -> bool {
    &&& forall|i: int|
        0 <= i < fees.len() ==> fee_known(#[trigger] fees[i], f, st.steps) && fees[i].worth()
            == tariff
    &&& forall|i: int, j: int|
        0 <= i < j < fees.len() ==> #[trigger] fees[i] != #[trigger] fees[j]
    &&& forall|i: int, j: int|
        0 <= i < fees.len() && 0 <= j < st.steps.len() ==> #[trigger] fees[i] != split_source(
            #[trigger] st.steps[j],
        )
}

proof fn lemma_sound_fees(
    held: Seq<Src>,
    st: SplitState,
    f: Seq<u64>,
    tariff: u64,
    s_tier: u64,
    needed: nat,
)
    requires
        sound_splits(st, f, tariff, s_tier),
        f.len() <= usize::MAX,
        held == stock(f, tariff, needed),
    ensures
        sound_fees(fees_of(held, st), st, f, tariff),
        fees_of(held, st).len() == held.len() + st.made.len(),
{
    lemma_exact(f, tariff, f.len() as int);
    let exact = exact_to(f, tariff, f.len() as int);
    assert forall|i: int| 0 <= i < held.len() implies #[trigger] held[i] == exact[i] by {}
    assert forall|i: int| 0 <= i < held.len() implies #[trigger] held[i] is Held by {
        assert(held[i] == exact[i]);
    }
    lemma_fees(held, st, f, tariff, s_tier);
    let all = held + st.made;
    assert forall|i: int| 0 <= i < all.len() implies fee_known(#[trigger] all[i], f, st.steps)
        && all[i].worth() == tariff by {
        if i < held.len() {
            assert(all[i] == exact[i]);
        } else {
            assert(all[i] == st.made[i - held.len()]);
        }
    }
    assert forall|i: int, j: int| 0 <= i < j < all.len() implies #[trigger] all[i]
        != #[trigger] all[j] by {
        if j < held.len() {
            assert(all[i] == exact[i] && all[j] == exact[j]);
        } else if i < held.len() {
            assert(all[i] == held[i]);
            assert(all[j] == st.made[j - held.len()]);
        } else {
            assert(all[i] == st.made[i - held.len()]);
            assert(all[j] == st.made[j - held.len()]);
        }
    }
    assert forall|i: int, j: int| 0 <= i < all.len() && 0 <= j < st.steps.len() implies
        #[trigger] all[i] != split_source(#[trigger] st.steps[j]) by {
        if i < held.len() {
            assert(all[i] == exact[i]);
            assert(sound_split(st.steps, j, f, tariff, s_tier));
        } else {
            assert(all[i] == st.made[i - held.len()]);
        }
    }
    let fees = fees_of(held, st);
    let keys = crate::annulet_send::by_ready(all, st.steps);
    crate::annulet_send::lemma_distinct_in_order(all, keys);
    assert forall|i: int| 0 <= i < fees.len() implies fee_known(#[trigger] fees[i], f, st.steps)
        && fees[i].worth() == tariff by {
        assert(all.contains(fees[i]));
    }
    assert forall|i: int, j: int| 0 <= i < fees.len() && 0 <= j < st.steps.len() implies
        #[trigger] fees[i] != split_source(#[trigger] st.steps[j]) by {
        assert(all.contains(fees[i]));
    }
}

/// A plan taken apart: the fee splits, what the payment spends, what is merged
/// before, and the fee notes.
pub struct Anatomy {
    pub st: SplitState,
    pub inputs: Seq<Src>,
    pub pairs: Seq<(Src, Src)>,
    pub fees: Seq<Src>,
}

/// The parts are those of the plan, and each is sound.
#[verifier::opaque]
pub open spec fn dissects(
    a: Anatomy,
    steps: Seq<StepModel>,
    f: Seq<u64>,
    v: Seq<u64>,
    asset: u16,
    amount: u64,
    shape: L2ShapeTag,
    tiers: Tiers,
) -> bool {
    let tariff = tiers.tier(shape);
    &&& parts(steps, a.st, a.inputs, a.pairs, a.fees, shape, tariff, amount)
    &&& sound_splits(a.st, f, tariff, tiers.s)
    &&& sound_merges(a.inputs, a.pairs, v, asset)
    &&& sound_fees(a.fees, a.st, f, tariff)
    &&& a.fees.len() == a.pairs.len() + 1
    &&& a.inputs.len() <= 2
    &&& amount <= sum_of(a.inputs) <= amount + u64::MAX
    &&& v.len() > 0 && amount > 0 ==> a.inputs.len() > 0
}

/// The inputs on which a plan of another asset than 0 is spoken of: notes and
/// steps that a machine can count.
pub open spec fn countable(
    steps: Seq<StepModel>,
    f: Seq<u64>,
    v: Seq<u64>,
) -> bool {
    f.len() <= usize::MAX && v.len() <= usize::MAX && steps.len() <= usize::MAX
}

proof fn lemma_dissect(
    f: Seq<u64>,
    v: Seq<u64>,
    asset: u16,
    amount: u64,
    shape: L2ShapeTag,
    tiers: Tiers,
    steps: Seq<StepModel>,
) -> (a: Anatomy)
    requires
        asset != 0,
        planned(f, v, asset, amount, shape, tiers) == Ok::<Seq<StepModel>, PlanFault>(steps),
        countable(steps, f, v),
    ensures
        dissects(a, steps, f, v, asset, amount, shape, tiers),
        (a.inputs, a.pairs) == chosen_for(v, asset, amount),
        ({
            let tariff = tiers.tier(shape);
            let needed = a.pairs.len() + 1;
            let held = stock(f, tariff, needed);
            &&& splits(
                split_start(f, tariff, Seq::empty()),
                tariff,
                tiers.s,
                (needed - held.len()) as nat,
            ) == Ok::<SplitState, nat>(a.st)
            &&& a.fees == fees_of(held, a.st)
        }),
{
    let tariff = tiers.tier(shape);
    let chosen = chosen_for(v, asset, amount);
    lemma_chosen(v, asset, amount);
    let needed = chosen.1.len() + 1;
    let held = stock(f, tariff, needed);
    let start = split_start(f, tariff, Seq::empty());
    let deficit = (needed - held.len()) as nat;
    // The payment alone keeps the merges within the steps, so they can be counted.
    let st = splits(start, tariff, tiers.s, deficit)->Ok_0;
    lemma_laid_out(st, chosen.0, chosen.1, fees_of(held, st), shape, tariff, amount);
    lemma_split_start(f, tariff, tiers.s);
    lemma_splits(start, f, tariff, tiers.s, deficit);
    lemma_sound_fees(held, st, f, tariff, tiers.s, needed);
    reveal(dissects);
    Anatomy { st, inputs: chosen.0, pairs: chosen.1, fees: fees_of(held, st) }
}

/// How many steps a plan has, and its payment.
proof fn lemma_part_pay(
    a: Anatomy,
    steps: Seq<StepModel>,
    f: Seq<u64>,
    v: Seq<u64>,
    asset: u16,
    amount: u64,
    shape: L2ShapeTag,
    tiers: Tiers,
)
    requires
        dissects(a, steps, f, v, asset, amount, shape, tiers),
    ensures
        steps.len() == a.st.steps.len() + a.pairs.len() + 1,
        a.fees.len() == a.pairs.len() + 1,
        a.inputs.len() <= 2,
        amount <= sum_of(a.inputs) <= amount + u64::MAX,
        v.len() > 0 && amount > 0 ==> a.inputs.len() > 0,
        steps[a.st.steps.len() + a.pairs.len() as int] == pay_model(
            all_placed(a.inputs, a.st.steps.len()),
            a.fees[a.pairs.len() as int],
            steps.take(a.st.steps.len() + a.pairs.len() as int),
            shape,
            tiers.tier(shape),
            amount,
        ),
{
    reveal(dissects);
}

/// A fee split of a plan.
proof fn lemma_part_split(
    a: Anatomy,
    steps: Seq<StepModel>,
    f: Seq<u64>,
    v: Seq<u64>,
    asset: u16,
    amount: u64,
    shape: L2ShapeTag,
    tiers: Tiers,
    i: int,
)
    requires
        dissects(a, steps, f, v, asset, amount, shape, tiers),
        0 <= i < a.st.steps.len(),
    ensures
        steps[i] == a.st.steps[i],
        sound_split(a.st.steps, i, f, tiers.tier(shape), tiers.s),
{
    reveal(dissects);
}

/// A merge of a plan.
proof fn lemma_part_merge(
    a: Anatomy,
    steps: Seq<StepModel>,
    f: Seq<u64>,
    v: Seq<u64>,
    asset: u16,
    amount: u64,
    shape: L2ShapeTag,
    tiers: Tiers,
    k: int,
)
    requires
        dissects(a, steps, f, v, asset, amount, shape, tiers),
        0 <= k < a.pairs.len(),
    ensures
        merge_at(steps, a.pairs, a.fees, a.st.steps.len(), shape, tiers.tier(shape), k),
        asset_known(a.pairs[k].0, v, asset, a.pairs, k),
        asset_known(a.pairs[k].1, v, asset, a.pairs, k),
        a.pairs[k].0.worth() + a.pairs[k].1.worth() <= u64::MAX,
        a.pairs[k].0 != a.pairs[k].1,
{
    reveal(dissects);
}

/// A fee note of a plan.
proof fn lemma_part_fee(
    a: Anatomy,
    steps: Seq<StepModel>,
    f: Seq<u64>,
    v: Seq<u64>,
    asset: u16,
    amount: u64,
    shape: L2ShapeTag,
    tiers: Tiers,
    k: int,
)
    requires
        dissects(a, steps, f, v, asset, amount, shape, tiers),
        0 <= k <= a.pairs.len(),
    ensures
        fee_known(a.fees[k], f, a.st.steps),
        a.fees[k].worth() == tiers.tier(shape),
        a.fees[k] matches Src::Made { step, .. } ==> step < a.st.steps.len()
            && steps[step as int] == a.st.steps[step as int],
{
    reveal(dissects);
}

/// A note of the asset that the payment spends.
proof fn lemma_part_input(
    a: Anatomy,
    steps: Seq<StepModel>,
    f: Seq<u64>,
    v: Seq<u64>,
    asset: u16,
    amount: u64,
    shape: L2ShapeTag,
    tiers: Tiers,
    x: int,
)
    requires
        dissects(a, steps, f, v, asset, amount, shape, tiers),
        0 <= x < a.inputs.len(),
    ensures
        asset_known(a.inputs[x], v, asset, a.pairs, a.pairs.len() as int),
{
    reveal(dissects);
}

proof fn lemma_ready_prefix(src: Src, steps: Seq<StepModel>, i: int)
    requires
        0 <= i <= steps.len(),
        src matches Src::Made { step, .. } ==> step < i,
    ensures
        ready(src, steps.take(i)) == ready(src, steps),
{
    if let Src::Made { step, .. } = src {
        assert(steps.take(i)[step as int] == steps[step as int]);
    }
}

/// The kinds of the steps of a plan that was taken apart.
proof fn lemma_kinds(
    a: Anatomy,
    steps: Seq<StepModel>,
    f: Seq<u64>,
    v: Seq<u64>,
    asset: u16,
    amount: u64,
    shape: L2ShapeTag,
    tiers: Tiers,
)
    requires
        dissects(a, steps, f, v, asset, amount, shape, tiers),
    ensures
        forall|i: int| 0 <= i < a.st.steps.len() ==> (#[trigger] steps[i]).kind is FeeSplit,
        forall|i: int|
            a.st.steps.len() <= i < steps.len() - 1 ==> (#[trigger] steps[i]).kind is Merge,
        steps.last().kind is Pay,
{
    lemma_part_pay(a, steps, f, v, asset, amount, shape, tiers);
    assert forall|i: int| 0 <= i < a.st.steps.len() implies (#[trigger] steps[i]).kind is FeeSplit by {
        lemma_part_split(a, steps, f, v, asset, amount, shape, tiers, i);
    }
    assert forall|i: int| a.st.steps.len() <= i < steps.len() - 1 implies (
    #[trigger] steps[i]).kind is Merge by {
        let k = i - a.st.steps.len();
        lemma_part_merge(a, steps, f, v, asset, amount, shape, tiers, k);
    }
}

/// A note of the asset, put at its step, is landed where that step is before `i`.
proof fn lemma_asset_landed(
    a: Anatomy,
    steps: Seq<StepModel>,
    f: Seq<u64>,
    v: Seq<u64>,
    asset: u16,
    amount: u64,
    shape: L2ShapeTag,
    tiers: Tiers,
    src: Src,
    k: int,
)
    requires
        dissects(a, steps, f, v, asset, amount, shape, tiers),
        steps.len() <= usize::MAX,
        0 <= k <= a.pairs.len(),
        asset_known(src, v, asset, a.pairs, k),
        steps[a.st.steps.len() + k].round >= ready(placed(src, a.st.steps.len()), steps),
    ensures
        landed(steps, a.st.steps.len() + k, placed(src, a.st.steps.len()), f, v, asset),
        placed(src, a.st.steps.len()).of_asset() == asset,
        placed(src, a.st.steps.len()).worth() == src.worth(),
        placed(src, a.st.steps.len()) matches Src::Made { step, .. } ==> step
            < a.st.steps.len() + k,
{
    let base = a.st.steps.len();
    lemma_part_pay(a, steps, f, v, asset, amount, shape, tiers);
    if let Src::Made { step, .. } = src {
        let s = base + step;
        lemma_part_merge(a, steps, f, v, asset, amount, shape, tiers, step as int);
        assert(steps[s].kind is Merge);
        let pair = a.pairs[step as int];
        assert(placed(pair.0, base).worth() == pair.0.worth());
        assert(placed(pair.1, base).worth() == pair.1.worth());
    }
}

/// A fee note is landed where the step is behind the fee splits.
proof fn lemma_fee_landed(
    a: Anatomy,
    steps: Seq<StepModel>,
    f: Seq<u64>,
    v: Seq<u64>,
    asset: u16,
    amount: u64,
    shape: L2ShapeTag,
    tiers: Tiers,
    k: int,
)
    requires
        dissects(a, steps, f, v, asset, amount, shape, tiers),
        0 <= k <= a.pairs.len(),
        steps[a.st.steps.len() + k].round >= ready(a.fees[k], steps),
    ensures
        landed(steps, a.st.steps.len() + k, a.fees[k], f, v, asset),
        a.fees[k] matches Src::Made { step, .. } ==> step < a.st.steps.len(),
{
    lemma_part_fee(a, steps, f, v, asset, amount, shape, tiers, k);
    if let Src::Made { step, .. } = a.fees[k] {
        lemma_part_split(a, steps, f, v, asset, amount, shape, tiers, step as int);
    }
}

proof fn lemma_all_ready(s: Seq<Src>, steps: Seq<StepModel>, i: int)
    requires
        0 <= i < s.len(),
    ensures
        ready(s[i], steps) <= all_ready(s, steps),
    decreases s.len(),
{
    if i < s.len() - 1 {
        lemma_all_ready(s.drop_last(), steps, i);
    }
}

/// Merge `k` of a plan: its step as it was laid out, from known notes and a fee
/// note of the tariff.
proof fn lemma_merge_facts(
    a: Anatomy,
    steps: Seq<StepModel>,
    f: Seq<u64>,
    v: Seq<u64>,
    asset: u16,
    amount: u64,
    shape: L2ShapeTag,
    tiers: Tiers,
    k: int,
)
    requires
        dissects(a, steps, f, v, asset, amount, shape, tiers),
        steps.len() <= usize::MAX,
        0 <= k < a.pairs.len(),
    ensures
        ({
            let base = a.st.steps.len();
            let st = steps[base + k];
            let first = placed(a.pairs[k].0, base);
            let second = placed(a.pairs[k].1, base);
            &&& st.kind == (KindModel::Merge { first, second, fee: a.fees[k] })
            &&& st.shape == shape && st.fee == tiers.tier(shape)
            &&& st.outputs == ((first.worth() + second.worth()) as u64, 0u64)
            &&& st.round == later(
                later(ready(first, steps), ready(second, steps)),
                ready(a.fees[k], steps),
            )
            &&& first.worth() + second.worth() <= u64::MAX
            &&& a.fees[k].worth() == tiers.tier(shape)
            &&& asset_known(a.pairs[k].0, v, asset, a.pairs, k)
            &&& asset_known(a.pairs[k].1, v, asset, a.pairs, k)
        }),
{
    let base = a.st.steps.len();
    let i = base + k;
    let pair = a.pairs[k];
    let first = placed(pair.0, base);
    let second = placed(pair.1, base);
    lemma_part_pay(a, steps, f, v, asset, amount, shape, tiers);
    lemma_part_merge(a, steps, f, v, asset, amount, shape, tiers, k);
    lemma_part_fee(a, steps, f, v, asset, amount, shape, tiers, k);
    lemma_ready_prefix(first, steps, i);
    lemma_ready_prefix(second, steps, i);
    lemma_ready_prefix(a.fees[k], steps, i);
}

/// A merge of a plan balances and spends landed notes only.
proof fn lemma_merge_lands(
    a: Anatomy,
    steps: Seq<StepModel>,
    f: Seq<u64>,
    v: Seq<u64>,
    asset: u16,
    amount: u64,
    shape: L2ShapeTag,
    tiers: Tiers,
    k: int,
)
    requires
        dissects(a, steps, f, v, asset, amount, shape, tiers),
        steps.len() <= usize::MAX,
        0 <= k < a.pairs.len(),
    ensures
        balanced(steps[a.st.steps.len() + k]),
        landed(
            steps,
            a.st.steps.len() + k,
            placed(a.pairs[k].0, a.st.steps.len()),
            f,
            v,
            asset,
        ),
        landed(
            steps,
            a.st.steps.len() + k,
            placed(a.pairs[k].1, a.st.steps.len()),
            f,
            v,
            asset,
        ),
        landed(steps, a.st.steps.len() + k, a.fees[k], f, v, asset),
{
    lemma_merge_facts(a, steps, f, v, asset, amount, shape, tiers, k);
    assert(balanced(steps[a.st.steps.len() + k]));
    lemma_asset_landed(a, steps, f, v, asset, amount, shape, tiers, a.pairs[k].0, k);
    lemma_asset_landed(a, steps, f, v, asset, amount, shape, tiers, a.pairs[k].1, k);
    lemma_fee_landed(a, steps, f, v, asset, amount, shape, tiers, k);
}

/// The payment of a plan as it was laid out.
proof fn lemma_pay_facts(
    a: Anatomy,
    steps: Seq<StepModel>,
    f: Seq<u64>,
    v: Seq<u64>,
    asset: u16,
    amount: u64,
    shape: L2ShapeTag,
    tiers: Tiers,
)
    requires
        dissects(a, steps, f, v, asset, amount, shape, tiers),
        steps.len() <= usize::MAX,
    ensures
        ({
            let base = a.st.steps.len();
            let n = a.pairs.len() as int;
            let st = steps[base + n];
            let inputs = all_placed(a.inputs, base);
            &&& steps.last() == st
            &&& st.kind == (KindModel::Pay { inputs, fee: Some(a.fees[n]) })
            &&& st.shape == shape && st.fee == tiers.tier(shape)
            &&& st.outputs.0 == amount
            &&& balanced(st)
            &&& landed(steps, base + n, a.fees[n], f, v, asset)
            &&& forall|x: int|
                0 <= x < inputs.len() ==> landed(
                    steps,
                    base + n,
                    #[trigger] inputs[x],
                    f,
                    v,
                    asset,
                ) && inputs[x].of_asset() == asset
        }),
{
    let base = a.st.steps.len();
    let n = a.pairs.len() as int;
    let i = base + n;
    let before = steps.take(i);
    let inputs = all_placed(a.inputs, base);
    let st = steps[i];
    lemma_sum_placed(a.inputs, base);
    lemma_part_pay(a, steps, f, v, asset, amount, shape, tiers);
    lemma_part_fee(a, steps, f, v, asset, amount, shape, tiers, n);
    lemma_ready_prefix(a.fees[n], steps, i);
    assert(st.round >= ready(a.fees[n], steps));
    lemma_fee_landed(a, steps, f, v, asset, amount, shape, tiers, n);
    assert forall|x: int| 0 <= x < inputs.len() implies landed(
        steps,
        i,
        #[trigger] inputs[x],
        f,
        v,
        asset,
    ) && inputs[x].of_asset() == asset by {
        let src = a.inputs[x];
        lemma_part_input(a, steps, f, v, asset, amount, shape, tiers, x);
        lemma_all_ready(inputs, before, x);
        assert(inputs[x] == placed(src, base));
        lemma_ready_prefix(inputs[x], steps, i);
        lemma_asset_landed(a, steps, f, v, asset, amount, shape, tiers, src, n);
    }
}

/// A fee split of a plan balances and spends a landed note.
proof fn lemma_split_lands(
    a: Anatomy,
    steps: Seq<StepModel>,
    f: Seq<u64>,
    v: Seq<u64>,
    asset: u16,
    amount: u64,
    shape: L2ShapeTag,
    tiers: Tiers,
    i: int,
)
    requires
        dissects(a, steps, f, v, asset, amount, shape, tiers),
        0 <= i < a.st.steps.len(),
    ensures
        steps[i] == a.st.steps[i],
        steps[i].kind is FeeSplit,
        steps[i].shape == L2ShapeTag::S,
        steps[i].fee == tiers.s,
        balanced(steps[i]),
        landed(steps, i, split_source(steps[i]), f, v, asset),
        split_source(steps[i]).of_asset() == 0,
{
    lemma_part_split(a, steps, f, v, asset, amount, shape, tiers, i);
    let src = split_source(a.st.steps[i]);
    if let Src::Made { step, .. } = src {
        assert(a.st.steps.take(i)[step as int] == a.st.steps[step as int]);
        lemma_part_split(a, steps, f, v, asset, amount, shape, tiers, step as int);
    }
}

/// The fee of a step is the tier of its shape; a fee split is of shape S, and
/// a merge or a payment of the shape asked for (S for asset 0).
pub open spec fn priced(step: StepModel, asset: u16, shape: L2ShapeTag, tiers: Tiers) -> bool {
    &&& step.fee == tiers.tier(step.shape)
    &&& step.shape == if asset == 0 || step.kind is FeeSplit {
        L2ShapeTag::S
    } else {
        shape
    }
}

/// A plan that exists, over notes and steps that a machine can count. An
/// asset-0 amount is one that its fee can be added to.
pub open spec fn is_plan(
    steps: Seq<StepModel>,
    f: Seq<u64>,
    v: Seq<u64>,
    asset: u16,
    amount: u64,
    shape: L2ShapeTag,
    tiers: Tiers,
) -> bool {
    &&& planned(f, v, asset, amount, shape, tiers) == Ok::<Seq<StepModel>, PlanFault>(steps)
    &&& countable(steps, f, v)
    &&& asset == 0 ==> amount + tiers.s <= u64::MAX && f == v
}

/// In every step of a plan as much comes out as goes in, and the fee is exactly
/// the tier of the step's shape.
pub proof fn law_every_step_balances(
    steps: Seq<StepModel>,
    f: Seq<u64>,
    v: Seq<u64>,
    asset: u16,
    amount: u64,
    shape: L2ShapeTag,
    tiers: Tiers,
    i: int,
)
    requires
        is_plan(steps, f, v, asset, amount, shape, tiers),
        0 <= i < steps.len(),
    ensures
        balanced(steps[i]),
        priced(steps[i], asset, shape, tiers),
{
    if asset == 0 {
        lemma_least(f, capped(amount, tiers.s), f.len() as int);
        lemma_sum_one(steps[0].kind->inputs);
    } else {
        let a = lemma_dissect(f, v, asset, amount, shape, tiers, steps);
        let base = a.st.steps.len();
        lemma_part_pay(a, steps, f, v, asset, amount, shape, tiers);
        if i < base {
            lemma_split_lands(a, steps, f, v, asset, amount, shape, tiers, i);
        } else if i < steps.len() - 1 {
            lemma_merge_facts(a, steps, f, v, asset, amount, shape, tiers, i - base);
            lemma_merge_lands(a, steps, f, v, asset, amount, shape, tiers, i - base);
        } else {
            lemma_pay_facts(a, steps, f, v, asset, amount, shape, tiers);
        }
    }
}

/// A step of a plan spends only notes that the wallet holds, or that an earlier
/// step in an earlier round pays to this wallet.
pub proof fn law_steps_spend_landed_notes(
    steps: Seq<StepModel>,
    f: Seq<u64>,
    v: Seq<u64>,
    asset: u16,
    amount: u64,
    shape: L2ShapeTag,
    tiers: Tiers,
    i: int,
    x: int,
)
    requires
        is_plan(steps, f, v, asset, amount, shape, tiers),
        0 <= i < steps.len(),
        0 <= x < spends(steps[i]).len(),
    ensures
        landed(steps, i, spends(steps[i])[x], f, v, asset),
{
    if asset == 0 {
        lemma_least(f, capped(amount, tiers.s), f.len() as int);
    } else {
        let a = lemma_dissect(f, v, asset, amount, shape, tiers, steps);
        let base = a.st.steps.len();
        lemma_part_pay(a, steps, f, v, asset, amount, shape, tiers);
        if i < base {
            lemma_split_lands(a, steps, f, v, asset, amount, shape, tiers, i);
        } else if i < steps.len() - 1 {
            lemma_merge_facts(a, steps, f, v, asset, amount, shape, tiers, i - base);
            lemma_merge_lands(a, steps, f, v, asset, amount, shape, tiers, i - base);
        } else {
            lemma_pay_facts(a, steps, f, v, asset, amount, shape, tiers);
        }
    }
}

/// A plan ends in its payment, which pays the amount, and has no other. The
/// payment spends two notes of the asset at most, and at least one unless
/// nothing is paid.
pub proof fn law_plan_ends_in_the_payment(
    steps: Seq<StepModel>,
    f: Seq<u64>,
    v: Seq<u64>,
    asset: u16,
    amount: u64,
    shape: L2ShapeTag,
    tiers: Tiers,
)
    requires
        is_plan(steps, f, v, asset, amount, shape, tiers),
    ensures
        steps.len() > 0,
        steps.last().kind is Pay,
        steps.last().kind->inputs.len() <= 2,
        amount > 0 ==> steps.last().kind->inputs.len() > 0,
        steps.last().kind->Pay_fee is None <==> asset == 0,
        steps.last().outputs.0 == amount,
        forall|i: int| 0 <= i < steps.len() - 1 ==> !((#[trigger] steps[i]).kind is Pay),
{
    if asset != 0 {
        let a = lemma_dissect(f, v, asset, amount, shape, tiers, steps);
        lemma_kinds(a, steps, f, v, asset, amount, shape, tiers);
        lemma_part_pay(a, steps, f, v, asset, amount, shape, tiers);
        lemma_pay_facts(a, steps, f, v, asset, amount, shape, tiers);
        if v.len() == 0 && amount > 0 {
            lemma_gathered_short(v, asset, amount);
            assert(sum_of(holdings(v, asset)) == 0);
            lemma_least(v, amount, 0);
        }
    }
}

/// A send of another asset than 0 is refused as short exactly where all
/// spendable notes of the asset together are worth less than the amount, and
/// the refusal names what they are worth.
pub proof fn law_short_exactly_when_the_asset_is(
    f: Seq<u64>,
    v: Seq<u64>,
    asset: u16,
    amount: u64,
    shape: L2ShapeTag,
    tiers: Tiers,
)
    requires
        asset != 0,
    ensures
        sum_of(holdings(v, asset)) < amount <==> planned(f, v, asset, amount, shape, tiers) == Err::<
            Seq<StepModel>,
            PlanFault,
        >(PlanFault::Short { total: sum_of(holdings(v, asset)) }),
{
    lemma_gathered_short(v, asset, amount);
    lemma_least(v, amount, v.len() as int);
    if let Some(b) = least(v, amount) {
        crate::annulet_send::lemma_sum_has(holdings(v, asset), b);
    }
}

/// No two fee splits have one source, no two steps one fee note, and no fee
/// note is the source of a fee split.
proof fn lemma_fees_once(
    a: Anatomy,
    steps: Seq<StepModel>,
    f: Seq<u64>,
    v: Seq<u64>,
    asset: u16,
    amount: u64,
    shape: L2ShapeTag,
    tiers: Tiers,
    i: int,
    j: int,
)
    requires
        dissects(a, steps, f, v, asset, amount, shape, tiers),
    ensures
        0 <= i < j < a.st.steps.len() ==> split_source(a.st.steps[i]) != split_source(
            a.st.steps[j],
        ),
        0 <= i < j <= a.pairs.len() ==> a.fees[i] != a.fees[j],
        0 <= i < a.st.steps.len() && 0 <= j <= a.pairs.len() ==> split_source(a.st.steps[i])
            != a.fees[j],
{
    reveal(dissects);
}

/// The note that merge `k` spends first or second.
spec fn of_pair(a: Anatomy, k: int, x: int) -> Src {
    if x == 0 {
        a.pairs[k].0
    } else {
        a.pairs[k].1
    }
}

/// No note of the asset is spent twice.
proof fn lemma_notes_once(
    a: Anatomy,
    steps: Seq<StepModel>,
    f: Seq<u64>,
    v: Seq<u64>,
    asset: u16,
    amount: u64,
    shape: L2ShapeTag,
    tiers: Tiers,
    i: int,
    x: int,
    j: int,
    y: int,
)
    requires
        dissects(a, steps, f, v, asset, amount, shape, tiers),
        0 <= x <= 1,
        0 <= y <= 1,
    ensures
        0 <= i < j < a.pairs.len() ==> of_pair(a, i, x) != of_pair(a, j, y),
        0 <= i < a.pairs.len() && y < a.inputs.len() ==> of_pair(a, i, x) != a.inputs[y],
        x < y < a.inputs.len() ==> a.inputs[x] != a.inputs[y],
{
    reveal(dissects);
    if 0 <= i < j < a.pairs.len() {
        assert(!in_pair(a.pairs[i].0, a.pairs[j]) && !in_pair(a.pairs[i].1, a.pairs[j]));
    }
    if 0 <= i < a.pairs.len() && y < a.inputs.len() {
        assert(!in_pair(a.inputs[y], a.pairs[i]));
    }
}

proof fn lemma_placed_apart(s: Src, t: Src, base: nat, n: nat)
    requires
        s != t,
        s matches Src::Made { step, .. } ==> step < n,
        t matches Src::Made { step, .. } ==> step < n,
        base + n <= usize::MAX,
    ensures
        placed(s, base) != placed(t, base),
{
}

/// What a step of a plan spends at `x`, by the part that it belongs to.
spec fn spent_at(a: Anatomy, i: int, x: int) -> Src {
    let base = a.st.steps.len();
    let n = a.pairs.len();
    if i < base {
        split_source(a.st.steps[i])
    } else if i < base + n {
        if x < 2 {
            placed(of_pair(a, i - base, x), base)
        } else {
            a.fees[i - base]
        }
    } else if x < a.inputs.len() {
        placed(a.inputs[x], base)
    } else {
        a.fees[n as int]
    }
}

/// What a step spends at `x` is a fee note rather than a note of the asset.
spec fn pays_fee(a: Anatomy, i: int, x: int) -> bool {
    let base = a.st.steps.len();
    if i < base + a.pairs.len() {
        x == 2
    } else {
        x == a.inputs.len()
    }
}

proof fn lemma_spent_at(
    a: Anatomy,
    steps: Seq<StepModel>,
    f: Seq<u64>,
    v: Seq<u64>,
    asset: u16,
    amount: u64,
    shape: L2ShapeTag,
    tiers: Tiers,
    i: int,
    x: int,
)
    requires
        dissects(a, steps, f, v, asset, amount, shape, tiers),
        steps.len() <= usize::MAX,
        0 <= i < steps.len(),
        0 <= x < spends(steps[i]).len(),
    ensures
        spends(steps[i])[x] == spent_at(a, i, x),
        i < a.st.steps.len() ==> x == 0 && spent_at(a, i, x).of_asset() == 0,
        a.st.steps.len() <= i ==> x <= 2 && (pays_fee(a, i, x) || x < 2),
        a.st.steps.len() <= i && !pays_fee(a, i, x) ==> spent_at(a, i, x).of_asset() == asset,
        a.st.steps.len() <= i && pays_fee(a, i, x) ==> spent_at(a, i, x).of_asset() == 0
            && spent_at(a, i, x) == a.fees[i - a.st.steps.len()],
        a.st.steps.len() + a.pairs.len() <= i && !pays_fee(a, i, x) ==> x < a.inputs.len(),
{
    let base = a.st.steps.len();
    lemma_part_pay(a, steps, f, v, asset, amount, shape, tiers);
    if i < base {
        lemma_split_lands(a, steps, f, v, asset, amount, shape, tiers, i);
    } else if i < base + a.pairs.len() {
        lemma_merge_facts(a, steps, f, v, asset, amount, shape, tiers, i - base);
        lemma_part_fee(a, steps, f, v, asset, amount, shape, tiers, i - base);
    } else {
        lemma_pay_facts(a, steps, f, v, asset, amount, shape, tiers);
        lemma_part_fee(a, steps, f, v, asset, amount, shape, tiers, i - base);
    }
}

/// A fee split spends asset 0, a merge two notes of the asset and one of asset 0,
/// a payment notes of the asset and, where it has one, a fee note of asset 0.
pub proof fn lemma_spent_assets(
    steps: Seq<StepModel>,
    f: Seq<u64>,
    v: Seq<u64>,
    asset: u16,
    amount: u64,
    shape: L2ShapeTag,
    tiers: Tiers,
    i: int,
)
    requires
        is_plan(steps, f, v, asset, amount, shape, tiers),
        0 <= i < steps.len(),
    ensures
        match steps[i].kind {
            KindModel::FeeSplit { source, .. } => source.of_asset() == 0,
            KindModel::Merge { first, second, fee } => first.of_asset() == asset
                && second.of_asset() == asset && fee.of_asset() == 0,
            KindModel::Pay { inputs, fee } => (forall|x: int|
                0 <= x < inputs.len() ==> (#[trigger] inputs[x]).of_asset() == asset) && (
            fee matches Some(n) ==> n.of_asset() == 0),
        },
{
    if asset == 0 {
        lemma_least(f, capped(amount, tiers.s), f.len() as int);
    } else {
        let a = lemma_dissect(f, v, asset, amount, shape, tiers, steps);
        let base = a.st.steps.len();
        lemma_part_pay(a, steps, f, v, asset, amount, shape, tiers);
        lemma_kinds(a, steps, f, v, asset, amount, shape, tiers);
        let s = spends(steps[i]);
        assert forall|x: int| 0 <= x < s.len() implies (#[trigger] s[x]).of_asset() == if i < base
            || pays_fee(a, i, x) {
            0
        } else {
            asset
        } by {
            lemma_spent_at(a, steps, f, v, asset, amount, shape, tiers, i, x);
        }
        match steps[i].kind {
            KindModel::FeeSplit { source, .. } => {
                assert(s[0] == source);
            },
            KindModel::Merge { first, second, fee } => {
                assert(s[0] == first && s[1] == second && s[2] == fee);
            },
            KindModel::Pay { inputs, fee } => {
                assert forall|x: int| 0 <= x < inputs.len() implies (
                #[trigger] inputs[x]).of_asset() == asset by {
                    assert(s[x] == inputs[x]);
                }
                if let Some(n) = fee {
                    assert(s[inputs.len() as int] == n);
                }
            },
        }
    }
}

/// No note is spent twice by a plan, within a step or across steps.
pub proof fn law_each_note_is_spent_once(
    steps: Seq<StepModel>,
    f: Seq<u64>,
    v: Seq<u64>,
    asset: u16,
    amount: u64,
    shape: L2ShapeTag,
    tiers: Tiers,
    i: int,
    x: int,
    j: int,
    y: int,
)
    requires
        is_plan(steps, f, v, asset, amount, shape, tiers),
        0 <= i <= j < steps.len(),
        0 <= x < spends(steps[i]).len(),
        0 <= y < spends(steps[j]).len(),
        i < j || x < y,
    ensures
        spends(steps[i])[x] != spends(steps[j])[y],
{
    if asset != 0 {
        let a = lemma_dissect(f, v, asset, amount, shape, tiers, steps);
        let base = a.st.steps.len();
        let n = a.pairs.len();
        lemma_part_pay(a, steps, f, v, asset, amount, shape, tiers);
        lemma_spent_at(a, steps, f, v, asset, amount, shape, tiers, i, x);
        lemma_spent_at(a, steps, f, v, asset, amount, shape, tiers, j, y);
        let s = spent_at(a, i, x);
        let t = spent_at(a, j, y);
        if s.of_asset() == t.of_asset() {
            if i < base {
                if j < base {
                    lemma_fees_once(a, steps, f, v, asset, amount, shape, tiers, i, j);
                } else {
                    lemma_fees_once(a, steps, f, v, asset, amount, shape, tiers, i, j - base);
                }
            } else if pays_fee(a, i, x) {
                lemma_fees_once(a, steps, f, v, asset, amount, shape, tiers, i - base, j - base);
            } else {
                let p = if i < base + n {
                    of_pair(a, i - base, x)
                } else {
                    a.inputs[x]
                };
                let q = if j < base + n {
                    of_pair(a, j - base, y)
                } else {
                    a.inputs[y]
                };
                if i < base + n {
                    lemma_part_merge(a, steps, f, v, asset, amount, shape, tiers, i - base);
                } else {
                    lemma_part_input(a, steps, f, v, asset, amount, shape, tiers, x);
                }
                if j < base + n {
                    lemma_part_merge(a, steps, f, v, asset, amount, shape, tiers, j - base);
                } else {
                    lemma_part_input(a, steps, f, v, asset, amount, shape, tiers, y);
                }
                lemma_notes_once(
                    a,
                    steps,
                    f,
                    v,
                    asset,
                    amount,
                    shape,
                    tiers,
                    i - base,
                    x,
                    j - base,
                    y,
                );
                assert(p != q);
                lemma_placed_apart(p, q, base, n);
            }
        }
    }
}

/// The fees of the first `n` steps together.
pub open spec fn fees_to(steps: Seq<StepModel>, n: int) -> nat
    decreases n,
{
    if n <= 0 {
        0
    } else {
        fees_to(steps, n - 1) + steps[n - 1].fee as nat
    }
}

/// How many of the first `n` steps are fee splits.
pub open spec fn splits_to(steps: Seq<StepModel>, n: int) -> nat
    decreases n,
{
    if n <= 0 {
        0
    } else {
        splits_to(steps, n - 1) + if steps[n - 1].kind is FeeSplit {
            1nat
        } else {
            0nat
        }
    }
}

proof fn lemma_fees_to(steps: Seq<StepModel>, n: int, s: nat, tariff: nat)
    requires
        0 <= n <= steps.len(),
        forall|i: int|
            0 <= i < n ==> (#[trigger] steps[i]).fee == if steps[i].kind is FeeSplit {
                s
            } else {
                tariff
            },
    ensures
        splits_to(steps, n) <= n,
        fees_to(steps, n) == splits_to(steps, n) * s + (n - splits_to(steps, n)) * tariff,
    decreases n,
{
    if n > 0 {
        lemma_fees_to(steps, n - 1, s, tariff);
        let k = splits_to(steps, n - 1) as int;
        assert((k + 1) * s == k * s + s) by (nonlinear_arith);
        assert((n - k) * tariff == (n - 1 - k) * tariff + tariff) by (nonlinear_arith);
        let m = splits_to(steps, n) as int;
        if steps[n - 1].kind is FeeSplit {
            assert(m == k + 1);
            assert(m * s == (k + 1) * s);
            assert((n - m) * tariff == (n - 1 - k) * tariff);
        } else {
            assert(m == k);
        }
    } else {
        let m = splits_to(steps, n) as int;
        assert(m == 0 && n == 0);
        assert(m * s == 0) by (nonlinear_arith)
            requires
                m == 0,
        ;
        assert((n - m) * tariff == 0) by (nonlinear_arith)
            requires
                m == 0,
                n == 0,
        ;
    }
}

/// What a plan pays in fees: the S tier for each fee split, and the tariff for
/// each merge and for the payment.
pub proof fn law_total_fee(
    steps: Seq<StepModel>,
    f: Seq<u64>,
    v: Seq<u64>,
    asset: u16,
    amount: u64,
    shape: L2ShapeTag,
    tiers: Tiers,
)
    requires
        is_plan(steps, f, v, asset, amount, shape, tiers),
        asset != 0,
    ensures
        fees_to(steps, steps.len() as int) == splits_to(steps, steps.len() as int) * tiers.s + (
        steps.len() - splits_to(steps, steps.len() as int)) * tiers.tier(shape),
{
    assert forall|i: int| 0 <= i < steps.len() implies (#[trigger] steps[i]).fee == if steps[i].kind is FeeSplit {
        tiers.s as nat
    } else {
        tiers.tier(shape) as nat
    } by {
        law_every_step_balances(steps, f, v, asset, amount, shape, tiers, i);
    }
    lemma_fees_to(steps, steps.len() as int, tiers.s as nat, tiers.tier(shape) as nat);
}

/// How many of the first `n` steps are merges.
pub open spec fn merges_to(steps: Seq<StepModel>, n: int) -> nat
    decreases n,
{
    if n <= 0 {
        0
    } else {
        merges_to(steps, n - 1) + if steps[n - 1].kind is Merge {
            1nat
        } else {
            0nat
        }
    }
}

/// Step `i` spends at `x` the held note of the asset at place `at`.
pub open spec fn takes(steps: Seq<StepModel>, asset: u16, at: int, i: int, x: int) -> bool {
    &&& 0 <= i < steps.len()
    &&& 0 <= x < spends(steps[i]).len()
    &&& spends(steps[i])[x] matches Src::Held(n) && n.asset == asset && n.at == at
}

/// A step of the plan spends the held note of the asset at place `at`.
pub open spec fn uses(steps: Seq<StepModel>, asset: u16, at: int) -> bool {
    exists|i: int, x: int| takes(steps, asset, at, i, x)
}

proof fn lemma_merges_to(steps: Seq<StepModel>, base: int, n: int)
    requires
        0 <= base,
        0 <= n <= steps.len(),
        forall|i: int| 0 <= i < n && i < base ==> !((#[trigger] steps[i]).kind is Merge),
        forall|i: int| base <= i < n && i < steps.len() - 1 ==> (#[trigger] steps[i]).kind is Merge,
        steps.len() > 0 && !(steps.last().kind is Merge),
    ensures
        merges_to(steps, n) == if n <= base {
            0
        } else if n == steps.len() {
            n - base - 1
        } else {
            n - base
        },
    decreases n,
{
    if n > 0 {
        lemma_merges_to(steps, base, n - 1);
    }
}

/// A held note of the asset is spent by a step exactly where it is in play.
proof fn lemma_uses(
    a: Anatomy,
    steps: Seq<StepModel>,
    f: Seq<u64>,
    v: Seq<u64>,
    asset: u16,
    amount: u64,
    shape: L2ShapeTag,
    tiers: Tiers,
    at: int,
)
    requires
        dissects(a, steps, f, v, asset, amount, shape, tiers),
        countable(steps, f, v),
        asset != 0,
        0 <= at < v.len(),
    ensures
        uses(steps, asset, at) <==> in_play(a.inputs, a.pairs, holdings(v, asset)[at]),
{
    let base = a.st.steps.len();
    let src = holdings(v, asset)[at];
    lemma_part_pay(a, steps, f, v, asset, amount, shape, tiers);
    if uses(steps, asset, at) {
        let (i, x) = choose|i: int, x: int| takes(steps, asset, at, i, x);
        lemma_spent_at(a, steps, f, v, asset, amount, shape, tiers, i, x);
        let t = spent_at(a, i, x);
        assert(t.of_asset() == asset);
        assert(i >= base && !pays_fee(a, i, x));
        if i < base + a.pairs.len() {
            let k = i - base;
            lemma_part_merge(a, steps, f, v, asset, amount, shape, tiers, k);
            assert(of_pair(a, k, x) == t);
            assert(t == src);
            assert(a.pairs[k].0 == src || a.pairs[k].1 == src);
        } else {
            lemma_part_input(a, steps, f, v, asset, amount, shape, tiers, x);
            assert(a.inputs[x] == t);
            assert(t == src);
        }
    }
    if in_play(a.inputs, a.pairs, src) {
        if a.inputs.contains(src) {
            let x = choose|x: int| 0 <= x < a.inputs.len() && a.inputs[x] == src;
            let i = base + a.pairs.len() as int;
            assert(spends(steps[i])[x] == src);
            assert(takes(steps, asset, at, i, x));
        } else {
            let k = choose|k: int|
                0 <= k < a.pairs.len() && ((#[trigger] a.pairs[k]).0 == src || a.pairs[k].1 == src);
            lemma_part_merge(a, steps, f, v, asset, amount, shape, tiers, k);
            let i = base + k;
            let x = if a.pairs[k].0 == src {
                0int
            } else {
                1int
            };
            assert(spends(steps[i])[x] == src);
            assert(takes(steps, asset, at, i, x));
        }
    }
}

/// The steps of a plan spend the fewest notes of the asset that cover the amount:
/// the smallest one that does, and where none does, the largest. There are two
/// fewer merges than notes that are spent, and the payment has the two inputs
/// that are left; up to two notes are paid with as they are. `spent` are the
/// places of the notes, and `other` is any choice of them.
pub proof fn law_the_fewest_and_largest_notes_are_spent(
    steps: Seq<StepModel>,
    f: Seq<u64>,
    v: Seq<u64>,
    asset: u16,
    amount: u64,
    shape: L2ShapeTag,
    tiers: Tiers,
    other: Seq<int>,
) -> (spent: Seq<int>)
    requires
        is_plan(steps, f, v, asset, amount, shape, tiers),
        asset != 0,
        amount > 0,
    ensures
        is_choice(v, spent) && spent.len() > 0,
        worth_at(v, spent) >= amount,
        forall|at: int| 0 <= at < v.len() ==> (#[trigger] uses(steps, asset, at) <==> spent.contains(at)),
        is_choice(v, other) && worth_at(v, other) >= amount ==> spent.len() <= other.len(),
        (exists|p: int| 0 <= p < v.len() && v[p] >= amount) ==> spent.len() == 1 && v[spent[0]]
            >= amount && forall|p: int|
            0 <= p < v.len() && #[trigger] v[p] >= amount ==> v[spent[0]] <= v[p],
        (forall|p: int| 0 <= p < v.len() ==> v[p] < amount) ==> forall|p: int, q: int|
            spent.contains(p) && 0 <= q < v.len() && !spent.contains(q) ==> #[trigger] v[p]
                >= #[trigger] v[q],
        merges_to(steps, steps.len() as int) == if spent.len() > 2 {
            spent.len() - 2
        } else {
            0
        },
        steps.last().kind->inputs.len() == if spent.len() > 2 {
            2
        } else {
            spent.len()
        },
{
    let a = lemma_dissect(f, v, asset, amount, shape, tiers, steps);
    let base = a.st.steps.len();
    let h = holdings(v, asset);
    lemma_kinds(a, steps, f, v, asset, amount, shape, tiers);
    lemma_part_pay(a, steps, f, v, asset, amount, shape, tiers);
    lemma_merges_to(steps, base as int, steps.len() as int);
    lemma_least(v, amount, v.len() as int);
    let spent = match least(v, amount) {
        Some(b) => seq![b],
        None => gathered_at(v, asset, amount),
    };
    match least(v, amount) {
        Some(b) => {
            assert(spent[0] == b);
            assert(spent.drop_last() =~= Seq::empty());
            assert(worth_at(v, spent.drop_last()) == 0);
            if other.len() == 0 {
                assert(worth_at(v, other) == 0);
            }
            assert(a.inputs =~= seq![h[b]]);
            assert forall|at: int| 0 <= at < v.len() implies (in_play(a.inputs, a.pairs, h[at])
                <==> #[trigger] spent.contains(at)) by {
                if in_play(a.inputs, a.pairs, h[at]) {
                    assert(a.inputs[0] == h[b]);
                    assert(h[at] == h[b]);
                    assert(spent[0] == at);
                }
                if spent.contains(at) {
                    assert(a.inputs[0] == h[at]);
                }
            }
        },
        None => {
            let g = gathered(v, asset, amount);
            let m = lemma_gathered(v, asset, amount);
            lemma_gathered_at(v, asset, amount);
            lemma_merge_down_counts(g, Seq::empty(), asset, amount, m);
            if is_choice(v, other) && worth_at(v, other) >= amount {
                lemma_gathered_are_fewest(v, asset, amount, other);
            }
            if g.len() == 0 {
                assert(sum_of(g) == 0);
            }
            assert forall|at: int| 0 <= at < v.len() implies (in_play(a.inputs, a.pairs, h[at])
                <==> #[trigger] spent.contains(at)) by {
                assert(in_play(a.inputs, a.pairs, h[at]) <==> in_play(g, Seq::empty(), h[at]));
                if g.contains(h[at]) {
                    let i = choose|i: int| 0 <= i < g.len() && g[i] == h[at];
                    assert(g[i] == h[spent[i]]);
                    assert(spent[i] == at);
                }
                if spent.contains(at) {
                    let i = choose|i: int| 0 <= i < spent.len() && spent[i] == at;
                    assert(g[i] == h[spent[i]]);
                }
            }
        },
    }
    assert forall|at: int| 0 <= at < v.len() implies (#[trigger] uses(steps, asset, at)
        <==> spent.contains(at)) by {
        lemma_uses(a, steps, f, v, asset, amount, shape, tiers, at);
    }
    spent
}

/// An asset-0 amount is paid by one note, which pays its own fee. It is planned
/// exactly where some note reaches the amount and the S tier together, and then
/// with the smallest that does: one step, in the first round, of which the rest
/// comes back. Where none does, the refusal names what was needed and the largest
/// note there is.
pub proof fn law_one_note_pays_asset_0(f: Seq<u64>, amount: u64, shape: L2ShapeTag, tiers: Tiers)
    requires
        amount + tiers.s <= u64::MAX,
    ensures
        planned(f, f, 0, amount, shape, tiers) is Ok <==> exists|i: int|
            0 <= i < f.len() && #[trigger] f[i] >= amount + tiers.s,
        match planned(f, f, 0, amount, shape, tiers) {
            Ok(steps) => {
                &&& steps.len() == 1
                &&& steps[0].round == 0 && steps[0].shape is S && steps[0].fee == tiers.s
                &&& steps[0].kind is Pay && steps[0].kind->Pay_fee is None
                &&& steps[0].kind->inputs.len() == 1
                &&& steps[0].outputs.0 == amount
                &&& steps[0].kind->inputs[0] matches Src::Held(n) && n.asset == 0 && (f.len()
                    <= usize::MAX ==> n.at < f.len() && n.value == f[n.at as int]) && n.value
                    == amount + tiers.s + steps[0].outputs.1 && forall|i: int|
                    0 <= i < f.len() && #[trigger] f[i] >= amount + tiers.s ==> n.value <= f[i]
            },
            Err(fault) => {
                &&& fault matches PlanFault::NoCover { need, largest } && need == amount + tiers.s
                    && (forall|i: int| 0 <= i < f.len() ==> #[trigger] f[i] <= largest) && (
                largest == 0 || exists|i: int| 0 <= i < f.len() && #[trigger] f[i] == largest)
            },
        },
{
    let need = capped(amount, tiers.s);
    lemma_least(f, need, f.len() as int);
    lemma_greatest(f);
    if let Some(b) = least(f, need) {
        assert(f[b] >= need);
    }
}

/// How many of the first `n` values are exactly `x`.
pub open spec fn count_of(v: Seq<u64>, x: u64, n: int) -> nat
    decreases n,
{
    if n <= 0 {
        0
    } else {
        count_of(v, x, n - 1) + if v[n - 1] == x {
            1nat
        } else {
            0nat
        }
    }
}

proof fn lemma_count_of(f: Seq<u64>, tariff: u64, n: int)
    requires
        0 <= n <= f.len(),
    ensures
        exact_to(f, tariff, n).len() == count_of(f, tariff, n),
        forall|at: int|
            0 <= at < n && #[trigger] f[at] == tariff ==> exact_to(f, tariff, n).contains(
                holdings(f, 0)[at],
            ),
    decreases n,
{
    if n > 0 {
        lemma_count_of(f, tariff, n - 1);
        let was = exact_to(f, tariff, n - 1);
        let now = exact_to(f, tariff, n);
        assert forall|at: int| 0 <= at < n && #[trigger] f[at] == tariff implies now.contains(
            holdings(f, 0)[at],
        ) by {
            if at < n - 1 {
                let k = choose|k: int| 0 <= k < was.len() && was[k] == holdings(f, 0)[at];
                assert(now[k] == was[k]);
            } else {
                assert(now[was.len() as int] == holdings(f, 0)[at]);
            }
        }
    }
}

/// A note that is not of the tariff and can be split stands for one that is held.
proof fn lemma_other_is(f: Seq<u64>, tariff: u64, n: int, i: int) -> (at: int)
    requires
        0 <= n <= f.len(),
        0 <= i < others_to(f, tariff, n).len(),
    ensures
        0 <= at < n,
        f[at] != tariff,
        others_to(f, tariff, n)[i].0.worth() == f[at],
    decreases n,
{
    if n > 0 && i < others_to(f, tariff, n - 1).len() {
        lemma_other_is(f, tariff, n - 1, i)
    } else {
        n - 1
    }
}

/// Every held note that is not of the tariff is among those that can be split.
proof fn lemma_other_has(f: Seq<u64>, tariff: u64, n: int, at: int) -> (i: int)
    requires
        0 <= at < n <= f.len(),
        f[at] != tariff,
    ensures
        0 <= i < others_to(f, tariff, n).len(),
        others_to(f, tariff, n)[i].0.worth() == f[at],
    decreases n,
{
    if at < n - 1 {
        lemma_other_has(f, tariff, n - 1, at)
    } else {
        others_to(f, tariff, n - 1).len() as int
    }
}

/// What a refusal for want of fee notes says. As many are needed as the send has
/// merges and its payment; as many are held as notes are worth exactly the tariff;
/// with those that could be split off there are still too few. None could be split
/// off exactly where no other note reaches the tariff and the S tier of its split.
/// So a send is never refused for fees where enough exact notes are held.
pub proof fn law_fee_notes_are_short_only_in_fact(
    f: Seq<u64>,
    v: Seq<u64>,
    asset: u16,
    amount: u64,
    shape: L2ShapeTag,
    tiers: Tiers,
)
    requires
        asset != 0,
        f.len() <= usize::MAX,
    ensures
        planned(f, v, asset, amount, shape, tiers) matches Err(
            PlanFault::Fees { needed, held, made },
        ) ==> {
            let tariff = tiers.tier(shape);
            &&& held == count_of(f, tariff, f.len() as int)
            &&& held < needed
            &&& needed <= usize::MAX ==> held + made < needed
            &&& (made == 0 <==> forall|i: int|
                0 <= i < f.len() && f[i] != tariff ==> #[trigger] f[i] < tariff + tiers.s)
            &&& needed == chosen_for(v, asset, amount).1.len() + 1
            &&& sum_of(holdings(v, asset)) >= amount
        },
{
    let tariff = tiers.tier(shape);
    law_short_exactly_when_the_asset_is(f, v, asset, amount, shape, tiers);
    if let Err(PlanFault::Fees { needed, held, made }) = planned(f, v, asset, amount, shape, tiers) {
        let start = split_start(f, tariff, Seq::empty());
        lemma_count_of(f, tariff, f.len() as int);
        lemma_splits_grow(start, tariff, tiers.s, (needed - held) as nat);
        assert(held < needed);
        lemma_none_made(f, tariff, tiers.s, (needed - held) as nat);
        if needed <= usize::MAX {
            lemma_split_start(f, tariff, tiers.s);
            lemma_splits(start, f, tariff, tiers.s, (needed - held) as nat);
        }
    }
}

proof fn lemma_none_made(f: Seq<u64>, tariff: u64, s_tier: u64, deficit: nat)
    requires
        deficit > 0,
        splits(split_start(f, tariff, Seq::empty()), tariff, s_tier, deficit) is Err,
    ensures
        splits(split_start(f, tariff, Seq::empty()), tariff, s_tier, deficit)->Err_0 == 0
            <==> forall|i: int|
            0 <= i < f.len() && f[i] != tariff ==> #[trigger] f[i] < tariff + s_tier,
{
    let start = split_start(f, tariff, Seq::empty());
    lemma_first_pick(f, tariff, tariff + s_tier);
    if let Some(k) = split_pick(start.pool, tariff + s_tier, start.pool.len() as int) {
        lemma_splits_grow(split_once(start, k, tariff, s_tier, deficit), tariff, s_tier, deficit);
    }
}

/// Nothing can be split off exactly where no note but those of the tariff reaches
/// what is needed.
proof fn lemma_first_pick(f: Seq<u64>, tariff: u64, need: int)
    ensures
        ({
            let pool = others_to(f, tariff, f.len() as int);
            split_pick(pool, need, pool.len() as int) is None <==> forall|i: int|
                0 <= i < f.len() && f[i] != tariff ==> #[trigger] f[i] < need
        }),
{
    let pool = others_to(f, tariff, f.len() as int);
    lemma_split_pick(pool, need, pool.len() as int);
    match split_pick(pool, need, pool.len() as int) {
        None => {
            assert forall|i: int| 0 <= i < f.len() && f[i] != tariff implies #[trigger] f[i] < need by {
                let k = lemma_other_has(f, tariff, f.len() as int, i);
                assert(pool[k].0.worth() < need);
            }
        },
        Some(k) => {
            let at = lemma_other_is(f, tariff, f.len() as int, k);
            assert(f[at] >= need);
        },
    }
}

proof fn lemma_splits_grow(st: SplitState, tariff: u64, s_tier: u64, deficit: nat)
    ensures
        splits(st, tariff, s_tier, deficit) matches Err(made) ==> made >= st.made.len() && deficit
            > st.made.len(),
    decreases deficit - st.made.len(),
{
    if st.made.len() < deficit {
        if let Some(k) = split_pick(st.pool, tariff + s_tier, st.pool.len() as int) {
            lemma_splits_grow(split_once(st, k, tariff, s_tier, deficit), tariff, s_tier, deficit);
        }
    }
}

/// Held notes of exactly the tariff are spent before anything is split: a plan
/// splits only where they are too few for its merges and its payment, and then it
/// spends all of them.
pub proof fn law_exact_notes_come_before_splits(
    steps: Seq<StepModel>,
    f: Seq<u64>,
    v: Seq<u64>,
    asset: u16,
    amount: u64,
    shape: L2ShapeTag,
    tiers: Tiers,
)
    requires
        is_plan(steps, f, v, asset, amount, shape, tiers),
        asset != 0,
    ensures
        ({
            let tariff = tiers.tier(shape);
            let n = steps.len() as int;
            let exact = count_of(f, tariff, f.len() as int);
            &&& exact >= merges_to(steps, n) + 1 ==> forall|i: int|
                0 <= i < n ==> !((#[trigger] steps[i]).kind is FeeSplit)
            &&& exact < merges_to(steps, n) + 1 ==> steps[0].kind is FeeSplit
            &&& exact < merges_to(steps, n) + 1 ==> forall|at: int|
                0 <= at < f.len() && f[at] == tariff ==> #[trigger] uses(steps, 0, at)
        }),
{
    let tariff = tiers.tier(shape);
    let a = lemma_dissect(f, v, asset, amount, shape, tiers, steps);
    let base = a.st.steps.len();
    let needed = a.pairs.len() + 1;
    let held = stock(f, tariff, needed);
    let start = split_start(f, tariff, Seq::empty());
    lemma_kinds(a, steps, f, v, asset, amount, shape, tiers);
    lemma_part_pay(a, steps, f, v, asset, amount, shape, tiers);
    lemma_merges_to(steps, base as int, steps.len() as int);
    lemma_count_of(f, tariff, f.len() as int);
    let exact = exact_to(f, tariff, f.len() as int);
    if exact.len() >= needed {
        assert(held.len() == needed);
        assert(a.st == start);
        assert(base == 0);
    } else {
        assert(held == exact);
        lemma_split_start(f, tariff, tiers.s);
        lemma_splits(start, f, tariff, tiers.s, (needed - held.len()) as nat);
        assert(base > 0) by {
            lemma_splits_step(start, tariff, tiers.s, (needed - held.len()) as nat);
        }
        let all = held + a.st.made;
        let keys = crate::annulet_send::by_ready(all, a.st.steps);
        assert forall|at: int| 0 <= at < f.len() && f[at] == tariff implies #[trigger] uses(
            steps,
            0,
            at,
        ) by {
            let src = holdings(f, 0)[at];
            assert(exact.contains(src)) by {
                assert(f[at] == tariff);
            }
            let e = choose|e: int| 0 <= e < exact.len() && exact[e] == src;
            assert(all[e] == src);
            let k = crate::order::lemma_order_covers(keys, e);
            crate::order::lemma_order(keys);
            assert(a.fees[k] == src);
            let i = base + k;
            if k < a.pairs.len() {
                lemma_merge_facts(a, steps, f, v, asset, amount, shape, tiers, k);
                assert(spends(steps[i])[2] == src);
                assert(takes(steps, 0, at, i, 2));
            } else {
                let x = a.inputs.len() as int;
                assert(spends(steps[i])[x] == src);
                assert(takes(steps, 0, at, i, x));
            }
        }
    }
}

proof fn lemma_splits_step(st: SplitState, tariff: u64, s_tier: u64, deficit: nat)
    ensures
        splits(st, tariff, s_tier, deficit) matches Ok(end) ==> end.steps.len() >= st.steps.len()
            && (st.made.len() < deficit ==> end.steps.len() > st.steps.len()),
    decreases deficit - st.made.len(),
{
    if st.made.len() < deficit {
        if let Some(k) = split_pick(st.pool, tariff + s_tier, st.pool.len() as int) {
            lemma_splits_step(split_once(st, k, tariff, s_tier, deficit), tariff, s_tier, deficit);
        }
    }
}

/// Every step of a plan is a fee split, a merge or its one payment.
pub proof fn law_every_step_is_counted(
    steps: Seq<StepModel>,
    f: Seq<u64>,
    v: Seq<u64>,
    asset: u16,
    amount: u64,
    shape: L2ShapeTag,
    tiers: Tiers,
)
    requires
        is_plan(steps, f, v, asset, amount, shape, tiers),
    ensures
        splits_to(steps, steps.len() as int) + merges_to(steps, steps.len() as int) + 1
            == steps.len(),
{
    law_plan_ends_in_the_payment(steps, f, v, asset, amount, shape, tiers);
    lemma_kinds_counted(steps, steps.len() as int);
}

proof fn lemma_kinds_counted(steps: Seq<StepModel>, n: int)
    requires
        0 <= n <= steps.len(),
        steps.len() > 0 && steps.last().kind is Pay,
        forall|i: int| 0 <= i < steps.len() - 1 ==> !((#[trigger] steps[i]).kind is Pay),
    ensures
        splits_to(steps, n) + merges_to(steps, n) == if n == steps.len() {
            n - 1
        } else {
            n
        },
    decreases n,
{
    if n > 0 {
        lemma_kinds_counted(steps, n - 1);
    }
}

} // verus!
