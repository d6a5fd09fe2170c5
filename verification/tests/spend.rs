use qumbra_wallet::bundle::{
    BundleFacts, DiscoveryReading, MerkleWitness, RiderReading, WitnessBundle,
};
use qumbra_wallet::driver::ScanVerdict;
use qumbra_wallet::net::{SubmitAnswer, SubmitClass};
use qumbra_wallet::send::{
    build_bundle, choose_inputs, BuildContext, BuildMaterial, ChosenInput, Spendable,
};
use qumbra_wallet::sends::{append_text, parse};
use qumbra_wallet::spend::{
    admit_scan, built_step, declared_record, preflight_urls, prove, prove_bundle, submit,
    with_spent, Chosen, ProveContext, SendAction, SendArtifact, SendError, SendEvent, SendPhase,
    SendRun, SendStep, TxPublic,
};
use qumbra_wallet::spent::{NullifierChunk, NullifierSource, SpentRefusal, SpentSet};
use qumbra_wallet::sync::{AnchorSource, Anchors};

const POSTED_FEE: u64 = 1_000_000;
const ANCHOR: [u64; 4] = [0x0A, 0x0B, 0x0C, 0x0D];
const NULLIFIERS: [[u8; 32]; 2] = [[0x51; 32], [0x52; 32]];

fn witness() -> MerkleWitness {
    MerkleWitness { siblings: vec![[6; 4]; 4], path_bits: vec![false; 4] }
}

fn facts() -> BundleFacts {
    BundleFacts {
        posted_fee: POSTED_FEE,
        rider: Ok(RiderReading { canonical: vec![0], name_fee: 0 }),
        roots: [ANCHOR, ANCHOR],
        output_rho: [[21; 4], [22; 4]],
        discovery: Ok(DiscoveryReading {
            recipients: vec![vec![[1; 32]], vec![[2; 32]]],
            payloads: 2,
        }),
        output_cm: [[1; 32], [2; 32]],
    }
}

fn known(position: Option<u64>) -> ChosenInput {
    ChosenInput { sk: [8; 4], d: [1, 2], position, witness: witness() }
}

fn root() -> [u8; 32] {
    let mut r = [0u8; 32];
    for (i, lane) in ANCHOR.iter().enumerate() {
        r[8 * i..8 * i + 8].copy_from_slice(&lane.to_le_bytes());
    }
    r
}

fn bundle() -> WitnessBundle {
    let note = Spendable { div_index: 0, value: 10_000_000, rho: [7; 4], rseed: [9; 4] };
    let plan = choose_inputs(&[note], 4_000_000, POSTED_FEE, 0).expect("one note covers");
    let context = BuildContext {
        amount: 4_000_000,
        anchor_count: 1,
        anchor_root: root(),
        anchor_tip_height: 9,
        recipient_short: "qs1recipient".to_string(),
        output_range: Some((2, 9)),
        spent_covered: Some((0, 9)),
    };
    let material = BuildMaterial {
        first: known(Some(0)),
        second: known(None),
        dummy_rho: [17; 4],
        dummy_rseed: [19; 4],
        recipient_rkm: [31; 4],
        change_rkm: [32; 4],
        output_rho: [[21; 4], [22; 4]],
        output_rseed: [[41; 4], [42; 4]],
        discovery: Some(vec![9, 9, 9]),
        rider: vec![0],
        facts: facts(),
    };
    build_bundle(&plan, &[note], context, material).ok().expect("valid bundle")
}

fn context(bundle: &WitnessBundle, accepted: bool, spent_nfs: Vec<[u8; 32]>) -> ProveContext {
    ProveContext {
        anchors: Anchors {
            tip_height: 9,
            finalized_height: Some(8),
            max_age_blocks: 64,
            roots: vec![if accepted { bundle.anchor() } else { [0xA5; 32] }],
        },
        spent: SpentSet::from_parts(Some((0, 9)), spent_nfs.into_iter().map(|nf| (9, nf)).collect()),
    }
}

#[test]
fn stale_anchor_is_refused_by_name_before_proving() {
    let b = bundle();
    let err = prove(&b, &facts(), &context(&b, false, Vec::new()), &NULLIFIERS)
        .err()
        .expect("stale anchor refuses");
    assert!(err.message().contains("anchor-no-longer-accepted"), "{}", err.message());
}

#[test]
fn bundle_whose_selected_note_was_consumed_since_selection_refuses_before_proving() {
    let b = bundle();
    let nfs = b.real_nullifiers(&NULLIFIERS);
    let err = prove(&b, &facts(), &context(&b, true, nfs), &NULLIFIERS)
        .err()
        .expect("consumed input refuses");
    assert!(err.message().contains("bundle-input-already-spent"), "{}", err.message());
}

#[test]
fn a_fresh_bundle_goes_to_the_prover() {
    let b = bundle();
    let step = prove(&b, &facts(), &context(&b, true, vec![NULLIFIERS[1]]), &NULLIFIERS)
        .ok()
        .expect("the dummy's nullifier binds nothing");
    assert_eq!(step, SendStep::Proving);
    assert_eq!(
        built_step(&b),
        SendStep::Built { amount: 4_000_000, fee: 1_000_000, change: 5_000_000, used_dummy: true }
    );
    let narrow = ProveContext {
        spent: SpentSet::from_parts(Some((3, 9)), vec![]),
        ..context(&b, true, vec![])
    };
    let err = prove(&b, &facts(), &narrow, &NULLIFIERS).err().expect("height 2 is not covered");
    assert!(matches!(err, SendError::Refused(_)));
    let public = prove_bundle(&b, &[[1, 2, 3, 4]; 2], &[[5, 6, 7, 8]; 2]);
    assert_eq!(public.fee, 1_000_000);
    assert_eq!(public.anchor, b.anchor());
    assert_eq!(public.nullifiers.len(), 2);
    assert_eq!(&public.nullifiers[0][..9], &[1, 0, 0, 0, 0, 0, 0, 0, 2]);
    assert_eq!(public.commitments[1][24], 8);
}

#[test]
fn replaying_same_bundle_preserves_duplicate_vocabulary_end_to_end() {
    let wire = [0x51, 0x35, 0x31];
    let answer = |status: u16, body: &str| Ok(SubmitAnswer { status, body: body.to_string() });
    let first = submit(&wire, answer(202, "accepted 010203")).ok().expect("first answer arrives");
    let replay = submit(&wire, answer(200, "duplicate 010203")).ok().expect("replay arrives");
    assert_eq!(first.class(), SubmitClass::Accepted);
    assert_eq!(replay.class(), SubmitClass::Duplicate);
    assert_eq!(replay.status, 200);
    assert_eq!(replay.body, "duplicate 010203", "the node's vocabulary is verbatim");
}

#[test]
fn a_submission_without_an_answer_hands_the_bytes_back() {
    match submit(&[1, 2, 3], Err("reset".to_string())) {
        Err(SendError::Incomplete { why, wire_bytes }) => {
            assert!(why.contains("reset"), "{why}");
            assert_eq!(wire_bytes, [1, 2, 3]);
        }
        _ => panic!("a lost answer is no refusal"),
    }
}

fn public_of(b: &WitnessBundle) -> TxPublic {
    TxPublic {
        anchor: b.anchor(),
        nullifiers: vec![[0x11; 32], [0x12; 32]],
        commitments: vec![[0x21; 32], [0x22; 32]],
        fee: b.fee(),
    }
}

fn artifact(b: &WitnessBundle, wire: Vec<u8>) -> SendArtifact {
    SendArtifact {
        wire_bytes: wire,
        public: public_of(b),
        txid: [0x77; 32],
        change_value: b.change_value(),
        used_dummy: b.used_dummy(),
    }
}

fn chosen(b: &WitnessBundle) -> Chosen {
    Chosen {
        tip: b.selected_at_tip(),
        amount: b.amount(),
        recipient_short: "qs1recipient".to_string(),
    }
}

#[test]
fn execute_is_exactly_select_prove_submit_and_preserves_the_wire_bytes() {
    let b = bundle();
    let proved_wire = vec![0x51, 0x35, 0x31];
    let mut calls = vec!["select"];
    let mut run = SendRun::new(false);
    let mut shown = Vec::new();
    let (steps, mut action) = run.execute(SendEvent::Selected(Ok(chosen(&b))));
    shown.extend(steps);
    let outcome = loop {
        let event = match action {
            SendAction::Preflight => {
                calls.push("preflight");
                SendEvent::Preflighted(Ok(()))
            }
            SendAction::Prove => {
                calls.push("prove");
                SendEvent::Proved(Ok(artifact(&b, proved_wire.clone())))
            }
            SendAction::Preserve(wire) => {
                calls.push("preserve");
                assert_eq!(wire, [0x51, 0x35, 0x31]);
                SendEvent::Preserved(Ok(()))
            }
            SendAction::Record(record) => {
                assert_eq!(record.nullifiers, vec![[0x11; 32], [0x12; 32]]);
                SendEvent::Recorded(Err("no such directory".to_string()))
            }
            SendAction::Submit(wire) => {
                calls.push("submit");
                assert_eq!(wire, proved_wire);
                SendEvent::Answered(Ok(SubmitAnswer { status: 200, body: "duplicate".into() }))
            }
            SendAction::Finish(done) => {
                break done.ok().expect("duplicate is the safe retry outcome")
            }
        };
        let (steps, next) = run.execute(event);
        shown.extend(steps);
        action = next;
    };
    assert_eq!(calls, ["select", "preflight", "prove", "preserve", "submit"]);
    assert_eq!(outcome.wire_bytes, [0x51, 0x35, 0x31]);
    assert_eq!(outcome.answer.unwrap().class(), SubmitClass::Duplicate);
    assert_eq!(run.phase, SendPhase::Over);
    assert!(matches!(&shown[0], SendStep::Warning(w) if w.contains("no such directory")));
    assert_eq!(shown[1], SendStep::Submitting);
}

#[test]
fn a_refused_answer_and_a_lost_proof_end_the_run() {
    let b = bundle();
    let mut run = SendRun::new(false);
    run.execute(SendEvent::Selected(Ok(chosen(&b))));
    run.execute(SendEvent::Preflighted(Ok(())));
    run.execute(SendEvent::Proved(Ok(artifact(&b, vec![7]))));
    run.execute(SendEvent::Preserved(Ok(())));
    run.execute(SendEvent::Recorded(Ok(())));
    let answer = SubmitAnswer { status: 422, body: "refused: stale anchor".to_string() };
    let (steps, action) = run.execute(SendEvent::Answered(Ok(answer)));
    assert!(matches!(steps[0], SendStep::Answered { status: 422, .. }));
    match action {
        SendAction::Finish(Err(SendError::Answered { status, wire_bytes, .. })) => {
            assert_eq!(status, 422);
            assert_eq!(wire_bytes, [7]);
        }
        other => panic!("{other:?}"),
    }

    let mut run = SendRun::new(true);
    run.execute(SendEvent::Selected(Ok(chosen(&b))));
    run.execute(SendEvent::Preflighted(Ok(())));
    run.execute(SendEvent::Proved(Ok(artifact(&b, vec![7]))));
    let (_, action) = run.execute(SendEvent::Preserved(Ok(())));
    match action {
        SendAction::Finish(Ok(outcome)) => assert!(outcome.answer.is_none(), "nothing was sent"),
        other => panic!("{other:?}"),
    }

    let mut run = SendRun::new(true);
    run.execute(SendEvent::Selected(Ok(chosen(&b))));
    run.execute(SendEvent::Preflighted(Ok(())));
    run.execute(SendEvent::Proved(Ok(artifact(&b, vec![7]))));
    let (_, action) = run.execute(SendEvent::Preserved(Err("disk full".to_string())));
    match action {
        SendAction::Finish(Err(e)) => {
            assert!(e.message().ends_with("could not be saved: disk full"), "{}", e.message())
        }
        other => panic!("{other:?}"),
    }
}

#[test]
fn declared_reads_the_transactions_own_public_surface() {
    let public = TxPublic {
        anchor: [0x01; 32],
        nullifiers: vec![[0x02; 32], [0x03; 32]],
        commitments: vec![[0x04; 32], [0x05; 32]],
        fee: POSTED_FEE,
    };
    let r = declared_record(&public, [0x99; 32], 42, 100_000_000, "qmbs1payee".into());
    assert_eq!(r.fee, POSTED_FEE, "the declared fee, not a guess");
    assert_eq!(r.nullifiers, public.nullifiers, "the join key is what the wire carries");
    assert_eq!(r.submitted_at_tip, 42);
    assert_eq!(r.amount, 100_000_000);
    assert_eq!(r.txid, [0x99; 32], "the statement id that was derived of the transaction");
    let log = parse("sends.v1", &append_text(true, &r)).ok().expect("it reads back");
    assert_eq!(log.records, vec![r]);
}

struct Node {
    tip: u64,
}

impl AnchorSource for Node {
    fn anchors(&self) -> Result<Anchors, String> {
        Ok(Anchors {
            tip_height: self.tip,
            finalized_height: None,
            max_age_blocks: 64,
            roots: vec![[1; 32]],
        })
    }
}

struct Spends {
    dead: bool,
}

impl NullifierSource for Spends {
    fn fetch_range(&self, from: u64, to: u64) -> Result<NullifierChunk, String> {
        if self.dead {
            Err("connection refused".to_string())
        } else {
            let blocks = (from..=to).map(|h| (h, vec![[h as u8; 32]])).collect();
            Ok(NullifierChunk { from, to, blocks })
        }
    }
}

#[test]
fn the_preflight_reads_both_sides_of_the_chain() {
    let context = preflight_urls(&Node { tip: 3 }, &Spends { dead: false }).ok().expect("both");
    assert_eq!(context.anchors.roots, vec![[1; 32]]);
    assert_eq!(context.spent.covered, Some((0, 3)));
    assert_eq!(context.spent.len(), 4);
    let err = preflight_urls(&Node { tip: 3 }, &Spends { dead: true }).err().expect("no spends");
    assert!(err.message().ends_with("the chain may already have consumed"), "{}", err.message());
    let refused =
        with_spent(context.anchors, Err(SpentRefusal::Gap { expected: 2, got: 4 }));
    assert!(refused.is_err());
}

#[test]
fn only_a_complete_scan_may_be_spent_from() {
    assert!(admit_scan(0, &Ok(ScanVerdict::Complete)).is_ok());
    let err = admit_scan(4, &Err("no route".to_string())).err().expect("it never started");
    assert!(err.message().contains("no route"), "{}", err.message());
}
