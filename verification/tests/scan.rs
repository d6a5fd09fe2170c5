use qumbra_wallet::coinbase::{
    BlockCoinbase, CoinbaseChunk, CoinbaseRefusal, CoinbaseSource, MinedChain, Minted,
};
use qumbra_wallet::driver::ScanVerdict;
use qumbra_wallet::note::{LocatedNote, Note};
use qumbra_wallet::paging::widest_range;
use qumbra_wallet::scan::{
    coverage_of, gather, gathered, outputs_range, scan_report, AddressOutcome, CoinbaseCoverage,
    ScanOutcome, SpentCoverage,
};
use qumbra_wallet::spent::{NullifierChunk, NullifierSource, SpentRefusal, SpentSet};

struct Dead;

impl CoinbaseSource for Dead {
    fn fetch_range(&self, _from: u64, _to: u64) -> Result<CoinbaseChunk, String> {
        Err("connection refused".to_string())
    }
}

impl NullifierSource for Dead {
    fn fetch_range(&self, _from: u64, _to: u64) -> Result<NullifierChunk, String> {
        Err("connection refused".to_string())
    }
}

/// A chain on which every block is mined by `[h; 4]`, and the nullifier `[9; 32]`
/// is consumed at height 3.
struct Chain;

impl CoinbaseSource for Chain {
    fn fetch_range(&self, from: u64, to: u64) -> Result<CoinbaseChunk, String> {
        let blocks = (from..=to)
            .map(|height| BlockCoinbase {
                height,
                coinbase_rkm: [height; 4],
                coinbase: 50,
                fees: 0,
                name_burn: 0,
                minted: Some(Minted { note: note(50), nullifier: [height as u8; 32], leaf_at: 2 }),
            })
            .collect();
        Ok(CoinbaseChunk { from, to, blocks })
    }
}

impl NullifierSource for Chain {
    fn fetch_range(&self, from: u64, to: u64) -> Result<NullifierChunk, String> {
        let blocks =
            (from..=to).map(|h| (h, if h == 3 { vec![[9; 32]] } else { vec![] })).collect();
        Ok(NullifierChunk { from, to, blocks })
    }
}

fn note(value: u64) -> Note {
    Note { value, rkm: [3; 4], rho: [1; 4], rseed: [2; 4] }
}

fn located(value: u64, nullifier: [u8; 32]) -> LocatedNote {
    LocatedNote {
        height: 2,
        tx_index: 0,
        recipient_index: 0,
        cm: [4; 32],
        note: note(value),
        nullifier,
    }
}

fn scanned(notes: Vec<LocatedNote>) -> AddressOutcome {
    AddressOutcome {
        div_index: 0,
        short: "qs1a".to_string(),
        scan: Ok(ScanOutcome { verdict: ScanVerdict::Complete, served: Some((1, 4)), notes }),
    }
}

#[test]
fn widest_range_is_the_union_and_none_survives_nothing_seen() {
    assert_eq!(widest_range(&[None, None]), None);
    assert_eq!(widest_range(&[Some((5, 9)), None]), Some((5, 9)));
    assert_eq!(widest_range(&[Some((5, 9)), Some((2, 7))]), Some((2, 9)));
    assert_eq!(widest_range(&[Some((0, 0)), Some((100, 100))]), Some((0, 100)));
}

#[test]
fn an_unreachable_endpoint_yields_reasons_and_no_figures() {
    let outcomes = vec![AddressOutcome {
        div_index: 0,
        short: "qs1a".to_string(),
        scan: Err("connection refused".to_string()),
    }];
    let report = scan_report(gather(outcomes, &Dead, &Dead, 0, 8), &[(0, [7; 4])]);
    assert!(
        matches!(report.coinbase_coverage, CoinbaseCoverage::Unavailable { .. }),
        "an unreachable endpoint cannot have shown this wallet what it mined either"
    );
    assert!(report.coinbase.is_none(), "and there is no mined figure to print");
    assert!(!report.scans.is_empty(), "a fresh wallet has address 0 allocated");
    assert!(
        matches!(report.spent, SpentCoverage::Unavailable { .. }),
        "no nullifier stream means coverage cannot be claimed"
    );
    for s in &report.scans {
        assert!(s.never_started.is_some(), "every row names why it could not know");
        assert!(s.spendable_bessel.is_none(), "no figure may exist without both halves");
    }
}

#[test]
fn a_figure_is_withheld_where_the_spends_are_missing() {
    let outcomes = vec![scanned(vec![located(70, [8; 32])])];
    let report = scan_report(gather(outcomes, &Chain, &Dead, 0, 4), &[(0, [2; 4])]);
    assert!(matches!(report.coinbase_coverage, CoinbaseCoverage::Covered { .. }));
    assert!(report.coinbase.is_none());
    assert!(report.scans[0].spendable_bessel.is_none());
    assert!(report.scans[0].never_started.is_none());
}

#[test]
fn a_spent_note_is_not_in_the_figure() {
    let outcomes = vec![scanned(vec![located(70, [8; 32]), located(30, [9; 32])])];
    let report = scan_report(gather(outcomes, &Chain, &Chain, 0, 4), &[(0, [2; 4])]);
    assert_eq!(report.scans[0].spendable_bessel, Some(70));
    let spent = &report.scans[0].report.as_ref().unwrap().spent;
    assert_eq!((spent.len(), spent[0].spent_height), (1, 3));
    let mined = report.coinbase.expect("both streams were read");
    assert_eq!(mined.spendable.len() + mined.maturing.len(), 1, "one block was mined by this wallet's key");
    assert!(matches!(report.spent, SpentCoverage::Covered { range: Some((0, 4)) }));
}

#[test]
fn the_spends_must_cover_the_outputs_and_the_coinbase() {
    let outcomes = vec![scanned(vec![])];
    assert_eq!(outputs_range(&outcomes, None), Some((1, 4)));
    assert_eq!(outputs_range(&outcomes, Some((0, 9))), Some((0, 9)));
    assert_eq!(outputs_range(&vec![], None), None);
}

#[test]
fn a_reading_is_worth_what_it_covers() {
    let read = || SpentSet::from_parts(Some((0, 4)), vec![(3, [9; 32])]);
    let (coverage, set) = coverage_of(Ok(read()), Some((1, 4)));
    assert!(matches!(coverage, SpentCoverage::Covered { range: Some((0, 4)) }));
    assert!(set.expect("they cover the outputs").contains(&[9; 32]));
    let (coverage, set) = coverage_of(Ok(read()), Some((1, 5)));
    assert!(matches!(coverage, SpentCoverage::Unavailable { .. }));
    assert!(set.is_none(), "height 5 is not covered");
    let (_, set) = coverage_of(Ok(read()), None);
    assert!(set.is_some(), "nothing was seen, so nothing has to be covered");
    let refusal = SpentRefusal::Gap { expected: 2, got: 4 };
    let why = refusal.message();
    match coverage_of(Err(refusal), None) {
        (SpentCoverage::Unavailable { why: w }, None) => assert_eq!(w, why),
        other => panic!("{other:?}"),
    }
}

#[test]
fn the_coinbase_widens_what_the_spends_must_cover() {
    let read = || SpentSet::from_parts(Some((1, 4)), vec![]);
    let mined = MinedChain { covered: Some((0, 4)), blocks: vec![] };
    let g = gathered(vec![scanned(vec![])], Ok(mined), Ok(read()));
    assert!(g.set.is_none() && g.mined.is_some());
    let refusal = CoinbaseRefusal::Endpoint { why: "404".to_string() };
    let g = gathered(vec![scanned(vec![])], Err(refusal), Ok(read()));
    assert!(g.set.is_some() && g.mined.is_none());
    assert!(matches!(g.coinbase_coverage, CoinbaseCoverage::Unavailable { .. }));
}
