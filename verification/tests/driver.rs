use qumbra_wallet::bundle::{
    BundleFacts, DiscoveryReading, MerkleWitness, RiderReading,
};
use qumbra_wallet::coinbase::CoinbaseChunk;
use qumbra_wallet::driver::{
    FetchFault, Page, ScanVerdict, ScannedAddress, SelectDriver, SelectEndpoint, SelectStep,
    WitnessRequest,
};
use qumbra_wallet::note::{LocatedNote, Note};
use qumbra_wallet::send::{BuildMaterial, ChosenInput};
use qumbra_wallet::spend::SendStep;
use qumbra_wallet::spent::NullifierChunk;
use qumbra_wallet::sync::{Anchors, LeafChunk};

const FEE: u64 = 1_000;
const ANCHOR: [u64; 4] = [0x7777_7777_7777_7777; 4];

fn scanned(verdict: ScanVerdict) -> ScannedAddress {
    let note = |value: u64, nullifier: [u8; 32]| LocatedNote {
        height: 2,
        tx_index: 0,
        recipient_index: 0,
        cm: [4; 32],
        note: Note { value, rkm: [3; 4], rho: [7; 4], rseed: [9; 4] },
        nullifier,
    };
    ScannedAddress {
        div_index: 0,
        rkm: [3; 4],
        verdict,
        served: Some((0, 3)),
        notes: vec![note(9_000, [8; 32]), note(50_000, [9; 32])],
    }
}

fn driver(verdict: ScanVerdict) -> SelectDriver {
    SelectDriver::new("qs1payee".to_string(), 5_000, FEE, 0, vec![scanned(verdict)], vec![], 3)
}

fn need(step: SelectStep, endpoint: SelectEndpoint, path: &str) {
    match step {
        SelectStep::Need { endpoint: e, path: p } => {
            assert_eq!((e, p.as_str()), (endpoint, path))
        }
        _ => panic!("{path} is wanted"),
    }
}

fn failure(step: SelectStep) -> String {
    match step {
        SelectStep::Failed(why) => why,
        _ => panic!("a failure is wanted"),
    }
}

fn spends() -> Page {
    let blocks = (0..=3).map(|h| (h, if h == 3 { vec![[9; 32]] } else { vec![] })).collect();
    Page::Nullifiers(NullifierChunk { from: 0, to: 3, blocks })
}

fn anchors() -> Anchors {
    Anchors {
        tip_height: 3,
        finalized_height: Some(2),
        max_age_blocks: 64,
        roots: vec![[0x77; 32]],
    }
}

/// Everything up to the anchor walk, over a tree of two leaves.
fn up_to_the_walk(d: &mut SelectDriver) {
    need(d.step(), SelectEndpoint::Scan, "/v1/nullifiers?from=0&to=3");
    d.supply(Ok(spends()));
    need(d.step(), SelectEndpoint::Scan, "/v1/coinbase?from=0&to=3");
    need(d.step(), SelectEndpoint::Scan, "/v1/coinbase?from=0&to=3");
    d.supply(Err(FetchFault::Transport("404".to_string())));
    need(d.step(), SelectEndpoint::Node, "/v1/tree/leaves?from=0");
    d.supply(Ok(Page::Leaves(LeafChunk { from: 0, total: 2, leaves: vec![[4; 32], [5; 32]] })));
    while let SelectStep::Need { path, .. } = d.step() {
        if path.starts_with("/v1/anchors") {
            d.supply(Ok(Page::Anchors(anchors())));
        } else {
            assert_eq!(path, "/v1/tree/leaves?from=2");
            d.supply(Ok(Page::Leaves(LeafChunk { from: 2, total: 2, leaves: vec![] })));
        }
    }
}

fn witness() -> MerkleWitness {
    MerkleWitness { siblings: vec![[6; 4]; 4], path_bits: vec![false; 4] }
}

fn material(w: &WitnessRequest) -> BuildMaterial {
    let known = |position: Option<u64>| ChosenInput {
        sk: [8; 4],
        d: [1, 2],
        position,
        witness: witness(),
    };
    assert!(w.second.is_none());
    BuildMaterial {
        first: known(Some(0)),
        second: known(None),
        dummy_rho: [17; 4],
        dummy_rseed: [19; 4],
        recipient_rkm: [31; 4],
        change_rkm: [32; 4],
        output_rho: [[21; 4], [22; 4]],
        output_rseed: [[41; 4], [42; 4]],
        discovery: Some(vec![9]),
        rider: vec![0],
        facts: BundleFacts {
            posted_fee: FEE,
            rider: Ok(RiderReading { canonical: vec![0], name_fee: 0 }),
            roots: [ANCHOR, ANCHOR],
            output_rho: [[21; 4], [22; 4]],
            discovery: Ok(DiscoveryReading {
                recipients: vec![vec![[1; 32]], vec![[2; 32]]],
                payloads: 2,
            }),
            output_cm: [[1; 32], [2; 32]],
        },
    }
}

#[test]
fn a_selection_asks_until_it_has_a_bundle() {
    let mut d = driver(ScanVerdict::Complete);
    up_to_the_walk(&mut d);
    match d.step() {
        SelectStep::Root { count } => assert_eq!(count, 2),
        _ => panic!("the walk starts at the local tip"),
    }
    d.supply_root(&[0; 32]);
    match d.step() {
        SelectStep::Root { count } => assert_eq!(count, 1),
        _ => panic!("an unserved root is stepped over"),
    }
    d.supply_root(&[0x77; 32]);
    let request = match d.step() {
        SelectStep::Witness(w) => w,
        _ => panic!("a witness is wanted"),
    };
    assert_eq!(request.first.value, 9_000, "the spent note is not among the inputs");
    assert!(request.second.is_none());
    assert_eq!(request.anchor.count, 1);
    let m = material(&request);
    d.supply_witness(m);
    let bundle = match d.step() {
        SelectStep::Done(b) => b,
        _ => panic!("the bundle is due"),
    };
    assert_eq!((bundle.amount(), bundle.fee(), bundle.change_value()), (5_000, FEE, 3_000));
    assert!(bundle.used_dummy());
    let spent = &bundle.inputs[0];
    assert_eq!((spent.sk, spent.d), ([8; 4], [1, 2]));
    assert_eq!((spent.value, spent.rho, spent.rseed), (9_000, [7; 4], [9; 4]), "the note asked for");
    let dummy = &bundle.inputs[1];
    assert_eq!((dummy.value, dummy.rho, dummy.rseed), (0, [17; 4], [19; 4]));
    assert_eq!(bundle.anchor(), request.anchor.root);
    assert_eq!(failure(d.step()), "select driver already completed");
    let events = d.take_events();
    assert!(events.iter().any(|e| matches!(e, SendStep::CoinbaseUnavailable { .. })));
    assert!(events
        .iter()
        .any(|e| matches!(e, SendStep::Selected { spendable: 1, skipped_spent: 1, mined: 0 })));
    assert!(d.take_events().is_empty(), "events are taken once");
}

#[test]
fn a_send_without_coinbase_goes_on_and_says_so() {
    let mut d = driver(ScanVerdict::Complete);
    need(d.step(), SelectEndpoint::Scan, "/v1/nullifiers?from=0&to=3");
    d.supply(Ok(spends()));
    need(d.step(), SelectEndpoint::Scan, "/v1/coinbase?from=0&to=3");
    d.supply(Err(FetchFault::Decode("cut short".to_string())));
    need(d.step(), SelectEndpoint::Node, "/v1/tree/leaves?from=0");
    match &d.take_events()[..] {
        [SendStep::CoinbaseUnavailable { why }, SendStep::Selected { .. }] => {
            assert!(why.contains("TRANSACTIONS ONLY"), "{why}");
            assert!(why.contains("GET /v1/coinbase?from=0&to=3 did not decode: cut short"), "{why}");
        }
        other => panic!("{other:?}"),
    }

    let mut empty =
        SelectDriver::new("qs1payee".to_string(), 5_000, FEE, 0, vec![], vec![], 3);
    need(empty.step(), SelectEndpoint::Scan, "/v1/nullifiers?from=0&to=3");
    empty.supply(Ok(spends()));
    need(empty.step(), SelectEndpoint::Scan, "/v1/coinbase?from=0&to=3");
    empty.supply(Err(FetchFault::Transport("404".to_string())));
    let why = failure(empty.step());
    assert!(why.contains("no spendable notes") && why.contains("TRANSACTIONS ONLY"), "{why}");
}

#[test]
fn a_partial_scan_is_never_spent_from() {
    let mut d = driver(ScanVerdict::Partial("partial".to_string()));
    let why = failure(d.step());
    assert!(why.contains("partial"), "{why}");
    assert_eq!(failure(d.step()), why, "a failure is for good");
    let mut d = driver(ScanVerdict::Shadowed);
    need(d.step(), SelectEndpoint::Scan, "/v1/nullifiers?from=0&to=3");
}

#[test]
fn spends_that_do_not_reach_the_outputs_stop_the_selection() {
    let mut d = driver(ScanVerdict::Complete);
    d.step();
    d.supply(Err(FetchFault::Decode("short".to_string())));
    assert!(failure(d.step()).contains("/v1/nullifiers?from=0&to=3 did not decode: short"));

    let mut d = driver(ScanVerdict::Complete);
    d.step();
    d.supply(Ok(Page::Nullifiers(NullifierChunk {
        from: 0,
        to: 3,
        blocks: vec![(0, vec![]), (2, vec![])],
    })));
    assert!(!failure(d.step()).is_empty(), "a gap in the heights");
}

#[test]
fn an_answer_out_of_turn_is_refused() {
    let mut d = driver(ScanVerdict::Complete);
    d.supply(Ok(Page::Anchors(anchors())));
    assert_eq!(
        failure(d.step()),
        "select driver received a response without requesting a path"
    );
    let mut d = driver(ScanVerdict::Complete);
    d.step();
    d.supply(Ok(Page::Coinbase(CoinbaseChunk { from: 0, to: 3, blocks: vec![] })));
    assert_eq!(failure(d.step()), "a coinbase page arrived outside the coinbase phase");
    let mut d = driver(ScanVerdict::Complete);
    d.supply_root(&[1; 32]);
    assert_eq!(failure(d.step()), "a root arrived outside the anchor walk");
}

#[test]
fn a_walk_that_finds_no_served_root_refuses() {
    let mut d = driver(ScanVerdict::Complete);
    up_to_the_walk(&mut d);
    for _ in 0..3 {
        assert!(matches!(d.step(), SelectStep::Root { .. }));
        d.supply_root(&[0; 32]);
    }
    assert!(!failure(d.step()).is_empty());
}
