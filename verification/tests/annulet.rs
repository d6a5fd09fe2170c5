use qumbra_wallet::annulet::{
    annulet_coverage, annulet_spends, check_genesis, match_genesis, nullifiers_from, parse_genesis_hash, render,
    AnnuletRefusal, AnnuletReport, AnnuletRow,
};
use qumbra_wallet::annulet_run::{
    accept, build_call, fee_source, issue_outs, planned_outs, schedule, send_plan, session_index, wait_step,
    BuildCall, FeeSource, PlanAction, WaitStep,
};
use qumbra_wallet::annulet_send::{
    plan_send, smallest_covering, AssetIndex, AssetNotes, L2ShapeTag, OwnedL2Note, SendPlan,
    SendRefusal, SpendError, Src, StepKind, Tiers,
};
use qumbra_wallet::scan::SpentCoverage;
use qumbra_wallet::spent::{NullifierChunk, NullifierSource, SpentSet};

const TIERS: Tiers = Tiers { s: 1, p: 2, r: 4 };

fn index(notes: &[(u16, u64)]) -> AssetIndex {
    let mut by_asset: Vec<AssetNotes> = Vec::new();
    for (k, &(asset, value)) in notes.iter().enumerate() {
        let n = OwnedL2Note { value, asset, cm: [k as u8; 32] };
        match by_asset.iter_mut().find(|a| a.asset == asset) {
            Some(a) => a.spendable.push(n),
            None => by_asset.push(AssetNotes { asset, spendable: vec![n], spent: vec![] }),
        }
    }
    AssetIndex { by_asset }
}

fn kinds(plan: &SendPlan) -> Vec<(&'static str, usize, u64)> {
    plan.steps
        .iter()
        .map(|s| {
            let k = match s.kind {
                StepKind::FeeSplit { .. } => "split",
                StepKind::Merge { .. } => "merge",
                StepKind::Pay { .. } => "pay",
            };
            (k, s.round, s.fee)
        })
        .collect()
}

#[test]
fn a_mint_pays_the_payee_and_a_redemption_only_burns() {
    let (paid, back) = issue_outs(true, 3, 15, 40);
    assert_eq!((paid.to_payee, paid.value, paid.asset), (true, 15, 3));
    assert_eq!((back.to_payee, back.value, back.asset), (false, 40, 3));
    let (rest, empty) = issue_outs(false, 3, 15, 40);
    assert_eq!((rest.to_payee, rest.value, rest.asset), (false, 25, 3));
    assert_eq!((empty.to_payee, empty.value, empty.asset), (false, 0, 0));
}

#[test]
fn an_asset_zero_send_pays_its_fee_from_the_same_note() {
    let ix = index(&[(0, 5), (0, 20), (0, 8)]);
    let plan = plan_send(&ix, 0, 7, L2ShapeTag::S, TIERS).unwrap();
    assert_eq!(kinds(&plan), vec![("pay", 0, 1)]);
    match &plan.pay().kind {
        StepKind::Pay { inputs, fee: None } => assert_eq!(inputs[0].value(), 8),
        other => panic!("{other:?}"),
    }
    assert_eq!(plan.pay().outputs, [7, 0]);
    assert_eq!(
        plan_send(&ix, 0, 20, L2ShapeTag::S, TIERS).unwrap_err(),
        SendRefusal::NoSingleNoteCovers { asset: 0, amount: 21, largest: 20 }
    );
}

#[test]
fn a_policy_asset_takes_one_covering_note_and_an_exact_tariff_fee_note() {
    let ix = index(&[(1, 400), (1, 600), (0, 2), (0, 7)]);
    let plan = plan_send(&ix, 1, 500, L2ShapeTag::P, TIERS).unwrap();
    assert_eq!(kinds(&plan), vec![("pay", 0, 2)]);
    match &plan.pay().kind {
        StepKind::Pay { inputs, fee: Some(fee) } => {
            assert_eq!((inputs.len(), inputs[0].value(), fee.value()), (1, 600, 2));
            assert!(matches!(fee, Src::Held(_)), "the held exact note, not a split");
        }
        other => panic!("{other:?}"),
    }
    assert_eq!(plan.pay().outputs, [500, 100]);
}

#[test]
fn two_notes_of_a_non_fee_asset_pay_together_with_the_fee_in_slot_3() {
    let ix = index(&[(1, 400), (1, 400), (0, 2)]);
    let plan = plan_send(&ix, 1, 700, L2ShapeTag::P, TIERS).unwrap();
    assert_eq!(kinds(&plan), vec![("pay", 0, 2)]);
    match &plan.pay().kind {
        StepKind::Pay { inputs, fee: Some(_) } => {
            assert_eq!(inputs.iter().map(Src::value).collect::<Vec<_>>(), [400, 400])
        }
        other => panic!("{other:?}"),
    }
    assert_eq!(plan.pay().outputs, [700, 100]);
    let ix = index(&[(1, 400), (0, 1_000)]);
    assert_eq!(
        plan_send(&ix, 1, 500, L2ShapeTag::P, TIERS).unwrap_err(),
        SendRefusal::InsufficientAsset { asset: 1, amount: 500, spendable: 400 }
    );
}

#[test]
fn ten_notes_of_ten_pay_fifty_after_three_merges_and_four_fee_notes() {
    let mut notes = vec![(1u16, 10u64); 10];
    notes.push((0, 100));
    let ix = index(&notes);
    let plan = plan_send(&ix, 1, 50, L2ShapeTag::P, TIERS).unwrap();
    assert_eq!((plan.splits(), plan.merges(), plan.steps.len()), (4, 3, 8));
    assert_eq!(plan.total_fee(), 4 + 8);
    let rests: Vec<u64> = plan.steps[..4].iter().map(|s| s.outputs[1]).collect();
    assert_eq!(rests, [97, 94, 91, 88]);
    assert_eq!(plan.steps[..4].iter().map(|s| s.round).collect::<Vec<_>>(), [0, 1, 2, 3]);
    let mut spent_fees = 0;
    for (i, st) in plan.steps.iter().enumerate() {
        let srcs: Vec<&Src> = match &st.kind {
            StepKind::FeeSplit { source, .. } => vec![source],
            StepKind::Merge { inputs, fee } => {
                assert_eq!(fee.value(), 2);
                spent_fees += 1;
                inputs.iter().chain(std::iter::once(fee)).collect()
            }
            StepKind::Pay { inputs, fee } => {
                assert_eq!(fee.as_ref().map(Src::value), Some(2));
                spent_fees += 1;
                inputs.iter().chain(fee.iter()).collect()
            }
        };
        for src in srcs {
            if let Src::Made { step, .. } = src {
                assert!(*step < i, "step {i} spends a later step's output");
                assert!(
                    plan.steps[*step].round < st.round,
                    "step {i} spends a note of its own round"
                );
            }
        }
    }
    assert_eq!(spent_fees, 4);
    let pay = plan.pay();
    match &pay.kind {
        StepKind::Pay { inputs, .. } => {
            assert_eq!(inputs.iter().map(Src::value).sum::<u64>(), 50)
        }
        other => panic!("{other:?}"),
    }
    assert_eq!(pay.outputs, [50, 0]);
    let held_a = plan
        .steps
        .iter()
        .flat_map(|s| match &s.kind {
            StepKind::Merge { inputs, .. } => inputs.to_vec(),
            StepKind::Pay { inputs, .. } => inputs.clone(),
            StepKind::FeeSplit { .. } => vec![],
        })
        .filter(|x| matches!(x, Src::Held(_)))
        .count();
    assert_eq!(held_a, 5);
    let text = plan.message();
    assert!(text.contains("8 transaction(s)") && text.contains("total fee 12"), "{text}");
}

#[test]
fn held_exact_notes_come_first() {
    let ix = index(&[(1, 10), (1, 10), (1, 10), (0, 2), (0, 5)]);
    let plan = plan_send(&ix, 1, 25, L2ShapeTag::P, TIERS).unwrap();
    assert_eq!(kinds(&plan), vec![("split", 0, 1), ("merge", 0, 2), ("pay", 1, 2)]);
    match &plan.steps[1].kind {
        StepKind::Merge { fee, .. } => {
            assert!(matches!(fee, Src::Held(_)), "the held note goes to round 0")
        }
        other => panic!("{other:?}"),
    }
    match &plan.pay().kind {
        StepKind::Pay { fee: Some(fee), .. } => {
            assert!(matches!(fee, Src::Made { step: 0, out: 0, .. }))
        }
        other => panic!("{other:?}"),
    }
}

#[test]
fn a_split_whose_rest_is_exact_yields_two_fee_notes() {
    let ix = index(&[(1, 10), (1, 10), (1, 10), (0, 5)]);
    let plan = plan_send(&ix, 1, 25, L2ShapeTag::P, TIERS).unwrap();
    assert_eq!(kinds(&plan), vec![("split", 0, 1), ("merge", 1, 2), ("pay", 2, 2)]);
    assert_eq!(plan.steps[0].outputs, [2, 2]);
    let fees: Vec<Src> = plan
        .steps
        .iter()
        .filter_map(|s| match &s.kind {
            StepKind::Merge { fee, .. } => Some(*fee),
            StepKind::Pay { fee, .. } => *fee,
            StepKind::FeeSplit { .. } => None,
        })
        .collect();
    assert!(matches!(fees[0], Src::Made { step: 0, out: 0, .. }), "{fees:?}");
    assert!(matches!(fees[1], Src::Made { step: 0, out: 1, .. }), "{fees:?}");
    assert_eq!(plan.total_fee(), 1 + 2 + 2);
}

#[test]
fn without_an_exact_tariff_note_the_plan_splits_first_or_refuses() {
    let ix = index(&[(1, 50), (0, 3)]);
    let plan = plan_send(&ix, 1, 50, L2ShapeTag::P, TIERS).unwrap();
    assert_eq!(kinds(&plan), vec![("split", 0, 1), ("pay", 1, 2)]);
    match &plan.steps[0].kind {
        StepKind::FeeSplit { source, tariff } => assert_eq!((source.value(), *tariff), (3, 2)),
        other => panic!("{other:?}"),
    }
    let ix = index(&[(1, 50), (0, 1), (0, 2)]);
    assert_eq!(
        kinds(&plan_send(&ix, 1, 50, L2ShapeTag::S, TIERS).unwrap()),
        vec![("pay", 0, 1)]
    );
    assert_eq!(
        plan_send(&index(&[(1, 50), (0, 1)]), 1, 50, L2ShapeTag::P, TIERS).unwrap_err(),
        SendRefusal::FeeNotesShort { tariff: 2, needed: 1, held: 0, splittable: 0 }
    );
    let ix = index(&[(1, 10), (1, 10), (1, 10), (0, 3)]);
    let short = plan_send(&ix, 1, 25, L2ShapeTag::P, TIERS).unwrap_err();
    assert_eq!(
        short,
        SendRefusal::FeeNotesShort { tariff: 2, needed: 2, held: 0, splittable: 1 }
    );
    let text = short.message();
    assert!(text.contains("2 asset-0 fee note(s) of exactly 2"), "{text}");
}

#[test]
fn a_plan_keeps_every_value_that_goes_into_it() {
    let ix = index(&[(1, 7), (1, 9), (1, 30), (1, 4), (0, 2), (0, 40)]);
    let plan = plan_send(&ix, 1, 44, L2ShapeTag::P, TIERS).unwrap();
    for step in &plan.steps {
        let made = step.outputs[0] + step.outputs[1];
        let taken: u64 = match &step.kind {
            StepKind::FeeSplit { source, .. } => source.value() - step.fee,
            StepKind::Merge { inputs, .. } => inputs.iter().map(Src::value).sum(),
            StepKind::Pay { inputs, .. } => inputs.iter().map(Src::value).sum(),
        };
        assert_eq!(made, taken);
    }
}

#[test]
fn a_plan_runs_round_by_round() {
    let ix = index(&[(1, 10), (1, 10), (1, 10), (0, 5)]);
    let plan = send_plan(&ix, 1, 25, L2ShapeTag::P, TIERS, false, true).unwrap();
    assert_eq!(plan.rounds(), 3);
    assert_eq!(plan.first_split(), Some(0));
    let actions = schedule(&plan);
    let run = |i: usize| actions.iter().position(|a| *a == PlanAction::Run(i)).unwrap();
    assert!(run(0) < run(1) && run(1) < run(2));
    let wait = actions
        .iter()
        .position(|a| matches!(a, PlanAction::Await { step: 0, out: 0 }))
        .expect("the merge's fee note is waited for");
    assert!(run(0) < wait && wait < run(1));
    assert!(matches!(build_call(&plan.steps[0]), BuildCall::S { inputs } if inputs.len() == 1));
    assert!(matches!(build_call(&plan.steps[1]), BuildCall::PMerge { .. }));
    let (first, second) = planned_outs(plan.pay(), 1);
    assert_eq!((first.to_payee, first.value, first.asset), (true, 25, 1));
    assert_eq!((second.to_payee, second.value), (false, 5));
    assert!(accept(plan, true).is_ok());
}

#[test]
fn a_send_is_refused_before_anything_is_built() {
    let ix = index(&[(1, 10), (0, 2)]);
    assert_eq!(
        send_plan(&ix, 1, 5, L2ShapeTag::P, TIERS, true, true).unwrap_err(),
        SendRefusal::Spend(SpendError::Frozen { asset: 1 })
    );
    assert!(send_plan(&ix, 1, 5, L2ShapeTag::S, TIERS, true, true).is_ok(), "S asks no policy");
    assert!(matches!(
        send_plan(&ix, 1, 5, L2ShapeTag::P, TIERS, false, false).unwrap_err(),
        SendRefusal::Spend(SpendError::Served(_))
    ));
    let plan = send_plan(&ix, 1, 5, L2ShapeTag::P, TIERS, false, true).unwrap();
    assert_eq!(accept(plan, false).unwrap_err(), SendRefusal::PlanDeclined);
    assert_eq!(
        session_index(&[1; 32], &[2; 32], None).unwrap_err(),
        SendRefusal::ParamsGenesisMismatch
    );
    assert_eq!(session_index(&[1; 32], &[1; 32], None).unwrap_err(), SendRefusal::NoBalance);
    assert!(session_index(&[1; 32], &[1; 32], Some(ix)).is_ok());
}

#[test]
fn a_fee_note_is_held_split_off_or_missing() {
    let ix = index(&[(0, 9), (0, 2), (0, 4)]);
    assert_eq!(fee_source(&ix, 2, 1), Ok(FeeSource::Held(1)));
    assert_eq!(fee_source(&ix, 3, 1), Ok(FeeSource::Split { at: 2, rest: 0 }));
    assert_eq!(
        fee_source(&ix, 9_000, 1).unwrap_err(),
        SendRefusal::NoFeeSource { tariff: 9_000, split_needs: 9_001 }
    );
    assert_eq!(smallest_covering(ix.spendable(0), 5), Some(0));
    assert_eq!(smallest_covering(ix.spendable(0), 10), None);
    assert_eq!(wait_step(true, 9, 5, 1), WaitStep::Landed);
    assert_eq!(wait_step(false, 4, 5, 1), WaitStep::Again);
    assert_eq!(
        wait_step(false, 5, 5, 1),
        WaitStep::GiveUp(SendRefusal::SplitNotIncluded { waited_secs: 1 })
    );
}

#[test]
fn a_genesis_hash_is_sixty_four_hex_characters() {
    assert_eq!(parse_genesis_hash(&format!(" {}\n", "aB".repeat(32))), Ok([0xAB; 32]));
    assert_eq!(
        parse_genesis_hash("abc").unwrap_err(),
        "--genesis-hash must be 64 hex characters, got \"abc\""
    );
    assert!(parse_genesis_hash(&"zz".repeat(32)).is_err());
    assert!(check_genesis([1; 32], None).is_ok());
    assert!(check_genesis([1; 32], Some([1; 32])).is_ok());
    let err = check_genesis([1; 32], Some([2; 32])).unwrap_err();
    assert_eq!(err, AnnuletRefusal::GenesisMismatch { pinned: [2; 32], served: [1; 32] });
    assert!(err.message().contains(&"02".repeat(32)), "{}", err.message());
}

struct Spends {
    from: u64,
}

impl NullifierSource for Spends {
    fn fetch_range(&self, from: u64, to: u64) -> Result<NullifierChunk, String> {
        assert!(from >= self.from);
        Ok(NullifierChunk { from, to, blocks: (from..=to).map(|h| (h, vec![])).collect() })
    }
}

#[test]
fn genesis_notes_draw_the_spends_back_to_the_start() {
    assert_eq!(match_genesis(&[[1; 4], [2; 4], [1; 4]], &[(7, [1; 4])]), vec![(0, 7), (2, 7)]);
    assert_eq!(nullifiers_from(5, 0), 5);
    assert_eq!(nullifiers_from(5, 1), 1);
    assert_eq!(nullifiers_from(0, 1), 0);
    let rows = vec![AnnuletRow { index: 0, short: "qs1a".to_string(), scan: Ok(Some((5, 8))) }];
    let (coverage, set) = annulet_spends(&rows, 0, &Spends { from: 5 }, 5, 8);
    assert!(matches!(coverage, SpentCoverage::Covered { range: Some((5, 8)) }));
    assert!(set.is_some());
    let started = |ok: bool| {
        let scan = if ok { Ok(Some((5, 8))) } else { Err("no route".to_string()) };
        vec![AnnuletRow { index: 0, short: "qs1a".to_string(), scan }]
    };
    let read = || SpentSet::from_parts(Some((5, 8)), vec![]);
    assert!(annulet_coverage(&started(true), 0, Ok(read())).1.is_some());
    assert!(annulet_coverage(&started(true), 1, Ok(read())).1.is_none(), "block 1 is not covered");
    assert!(annulet_coverage(&started(false), 0, Ok(read())).1.is_none());
    let (coverage, _) = annulet_spends(&rows, 2, &Spends { from: 1 }, 5, 8);
    assert!(matches!(coverage, SpentCoverage::Covered { range: Some((1, 8)) }));
}

#[test]
fn a_report_shows_figures_only_where_it_has_them() {
    let mut report = AnnuletReport {
        genesis_hash: [0xCD; 32],
        rows: vec![AnnuletRow {
            index: 0,
            short: "qs1a".to_string(),
            scan: Err("no route".to_string()),
        }],
        genesis_owned: 0,
        spent: SpentCoverage::Unavailable { why: "no route".to_string() },
        index: None,
        refused: vec![],
    };
    let text = render(&report, "http://n", (0, 9));
    assert!(text.starts_with(&format!("net:      annulet — genesis {}", "cd".repeat(32))));
    assert!(text.contains("range:    0..=9\n"), "{text}");
    assert!(text.contains("no route"), "{text}");
    report.index = Some(index(&[(3, 40), (3, 2)]));
    let text = render(&report, "http://n", (0, 9));
    assert!(text.contains("42"), "{text}");
}
