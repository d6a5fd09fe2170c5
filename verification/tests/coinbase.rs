use qumbra_wallet::coinbase::{
    coinbase_maturity, fetch_coinbase, match_mined, BlockCoinbase, CoinbaseChunk,
    CoinbaseMaturity, CoinbaseRefusal, CoinbaseSource, MinedChain, Minted,
};
use qumbra_wallet::note::Note;
use qumbra_wallet::spent::SpentSet;

const MATURITY: u64 = 144;

fn leaf_at(height: u64) -> u64 {
    height + MATURITY
}

fn nullifier_of(height: u64) -> [u8; 32] {
    let mut nf = [0x77; 32];
    nf[..8].copy_from_slice(&height.to_le_bytes());
    nf
}

fn blk(height: u64, rkm: [u64; 4], coinbase: u64) -> BlockCoinbase {
    let minted = if coinbase == 0 {
        None
    } else {
        Some(Minted {
            note: Note { value: coinbase / 2, rkm, rho: [height; 4], rseed: [height + 1; 4] },
            nullifier: nullifier_of(height),
            leaf_at: leaf_at(height),
        })
    };
    BlockCoinbase { height, coinbase_rkm: rkm, coinbase, fees: 0, name_burn: 0, minted }
}

struct Honest {
    blocks: Vec<BlockCoinbase>,
    page: usize,
    asked: std::cell::RefCell<Vec<(u64, u64)>>,
}

impl Honest {
    fn mined_by(heights: std::ops::RangeInclusive<u64>, rkm: [u64; 4], page: usize) -> Honest {
        Honest {
            blocks: heights.map(|h| blk(h, rkm, 5_000)).collect(),
            page,
            asked: std::cell::RefCell::new(Vec::new()),
        }
    }
}

impl CoinbaseSource for Honest {
    fn fetch_range(&self, from: u64, to: u64) -> Result<CoinbaseChunk, String> {
        self.asked.borrow_mut().push((from, to));
        let blocks = self
            .blocks
            .iter()
            .filter(|b| b.height >= from && b.height <= to)
            .take(self.page)
            .cloned()
            .collect();
        Ok(CoinbaseChunk { from, to, blocks })
    }
}

#[test]
fn coinbase_the_stream_is_paged_until_the_range_is_in_hand() {
    let src = Honest::mined_by(0..=9, [7; 4], 4);
    let chain = fetch_coinbase(&src, 0, 9).expect("an honest stream pages");
    assert_eq!(chain.covered, Some((0, 9)));
    assert_eq!(chain.blocks.len(), 10, "every block's coinbase arrived");
    assert_eq!(
        *src.asked.borrow(),
        vec![(0, 9), (4, 9), (8, 9)],
        "resume at the last height + 1, never from the start"
    );
    assert_eq!(chain.as_of(), Some(9));
    assert!(chain.covers(Some((0, 9))).is_ok());
}

#[test]
fn a_coinbase_stream_is_its_blocks_however_it_is_paged() {
    for page in [1, 2, 3, 100] {
        let src = Honest::mined_by(2..=8, [7; 4], page);
        let chain = fetch_coinbase(&src, 0, 20).unwrap();
        assert_eq!(chain.covered, Some((2, 8)));
        assert_eq!(chain.blocks, src.blocks);
    }
    let none = fetch_coinbase(&Honest::mined_by(0..=3, [7; 4], 4), 8, 9).unwrap();
    assert_eq!(none.covered, None, "no block came");
    assert!(none.blocks.is_empty());
}

#[test]
fn a_stream_short_of_the_range_refuses_rather_than_under_counting() {
    let src = Honest::mined_by(0..=6, [7; 4], 100);
    let chain = fetch_coinbase(&src, 0, 9).expect("the pages themselves are well-formed");
    assert_eq!(chain.covered, Some((0, 6)), "it covers what it served, honestly");
    let e = chain.covers(Some((0, 9))).unwrap_err();
    assert_eq!(e, CoinbaseRefusal::NotCovered { covered: Some((0, 6)), wanted: (0, 9) });
    assert!(e.message().contains("cannot be quoted"), "{}", e.message());
    assert!(chain.covers(Some((0, 6))).is_ok());
    assert!(chain.covers(None).is_ok());
}

struct Holed;
impl CoinbaseSource for Holed {
    fn fetch_range(&self, from: u64, to: u64) -> Result<CoinbaseChunk, String> {
        Ok(CoinbaseChunk { from, to, blocks: vec![blk(0, [0; 4], 0), blk(2, [7; 4], 5_000)] })
    }
}

struct HoledAcrossPages;
impl CoinbaseSource for HoledAcrossPages {
    fn fetch_range(&self, from: u64, to: u64) -> Result<CoinbaseChunk, String> {
        let blocks = if from == 0 {
            vec![blk(0, [0; 4], 0), blk(1, [7; 4], 5_000)]
        } else {
            vec![blk(3, [7; 4], 5_000)]
        };
        Ok(CoinbaseChunk { from, to, blocks })
    }
}

#[test]
fn a_missing_height_is_a_gap_and_never_read_as_another_miners_block() {
    let e = fetch_coinbase(&Holed, 0, 3).unwrap_err();
    assert_eq!(e, CoinbaseRefusal::Gap { expected: 1, got: 2 });
    assert!(e.message().contains("not somebody else's block"), "{}", e.message());
    assert_eq!(
        fetch_coinbase(&HoledAcrossPages, 0, 5).unwrap_err(),
        CoinbaseRefusal::Gap { expected: 2, got: 3 }
    );
}

struct WrongEcho;
impl CoinbaseSource for WrongEcho {
    fn fetch_range(&self, _: u64, _: u64) -> Result<CoinbaseChunk, String> {
        Ok(CoinbaseChunk { from: 7, to: 9, blocks: vec![] })
    }
}

struct Backwards;
impl CoinbaseSource for Backwards {
    fn fetch_range(&self, from: u64, to: u64) -> Result<CoinbaseChunk, String> {
        Ok(CoinbaseChunk {
            from,
            to,
            blocks: vec![blk(0, [0; 4], 0), blk(1, [7; 4], 1), blk(1, [7; 4], 1)],
        })
    }
}

#[test]
fn a_page_answering_a_different_range_or_going_backwards_is_refused() {
    assert_eq!(
        fetch_coinbase(&WrongEcho, 0, 9).unwrap_err(),
        CoinbaseRefusal::RangeMismatch { asked: (0, 9), got: (7, 9) }
    );
    assert_eq!(
        fetch_coinbase(&Backwards, 0, 3).unwrap_err(),
        CoinbaseRefusal::NotAscending { previous: 1, height: 1 }
    );
}

struct Beyond;
impl CoinbaseSource for Beyond {
    fn fetch_range(&self, from: u64, to: u64) -> Result<CoinbaseChunk, String> {
        Ok(CoinbaseChunk { from, to, blocks: vec![blk(to + 5, [0; 4], 0)] })
    }
}

#[test]
fn a_block_outside_the_range_is_refused() {
    assert_eq!(
        fetch_coinbase(&Beyond, 0, 3).unwrap_err(),
        CoinbaseRefusal::OutOfRange { height: 8, asked: (0, 3) }
    );
}

struct Down;
impl CoinbaseSource for Down {
    fn fetch_range(&self, _: u64, _: u64) -> Result<CoinbaseChunk, String> {
        Err("non-200 response: HTTP 404".into())
    }
}

#[test]
fn an_absent_route_is_a_refusal_not_an_empty_stream() {
    let e = fetch_coinbase(&Down, 0, 9).unwrap_err();
    assert!(matches!(e, CoinbaseRefusal::Endpoint { .. }));
    assert!(e.message().contains("404"), "{}", e.message());
    assert!(e.message().contains("TRANSACTIONS ONLY"), "and it says what is lost");
}

const MINE: [u64; 4] = [0x41, 0x42, 0x43, 0x44];

#[test]
fn a_mining_wallets_own_blocks_are_found_and_split_by_maturity() {
    let theirs = [0xDEu64, 0xAD, 0xBE, 0xEF];
    let tip = leaf_at(1) + 55;
    let mut blocks = vec![blk(0, [0; 4], 0)];
    for h in 1..=tip {
        let payee = if h == 1 || h == 2 || h == tip { MINE } else { theirs };
        blocks.push(blk(h, payee, 5_000));
    }
    let chain = MinedChain { covered: Some((0, tip)), blocks };

    let report = match_mined(&[(0, MINE)], &chain, &SpentSet::empty());
    assert_eq!(report.as_of, tip, "the split is stated as of the height it was read at");
    assert_eq!(report.blocks_mined(), 3, "three blocks paid this wallet");
    assert_eq!(report.spendable.len(), 2, "the two old ones have leaves");
    assert_eq!(report.maturing.len(), 1, "the newest one does not yet");
    assert!(report.spendable_value() > 0, "a mining-only wallet reads NON-ZERO");
    assert_eq!(report.maturing_value(), u128::from(report.maturing[0].note.value));
    assert_eq!(report.next_maturity(), Some(leaf_at(tip)), "and it says WHEN");
    assert_eq!(report.spendable[0].note.value, 2_500, "the note's value is the chain's");
    assert_eq!(report.spendable[0].minted_height, 1);
}

#[test]
fn another_miners_blocks_and_the_no_payee_sentinel_are_never_matched() {
    let chain = MinedChain {
        covered: Some((0, 3)),
        blocks: vec![
            blk(0, [0; 4], 0),
            blk(1, [0xDE, 0xAD, 0xBE, 0xEF], 5_000),
            blk(2, [0; 4], 5_000),
            blk(3, [1, 2, 3, 4], 5_000),
        ],
    };
    let mine = [(0, MINE), (1, [5; 4]), (2, [6; 4])];
    let report = match_mined(&mine, &chain, &SpentSet::empty());
    assert_eq!(report.blocks_mined(), 0, "nothing here is ours");
    assert_eq!(report.spendable_value(), 0);
}

#[test]
fn a_mined_note_that_was_already_spent_is_subtracted_and_named() {
    let tip = leaf_at(2) + 10;
    let mut blocks = vec![blk(0, [0; 4], 0)];
    for h in 1..=tip {
        blocks.push(blk(h, if h <= 2 { MINE } else { [9; 4] }, 5_000));
    }
    let chain = MinedChain { covered: Some((0, tip)), blocks };

    let clean = match_mined(&[(0, MINE)], &chain, &SpentSet::empty());
    assert_eq!(clean.spendable.len(), 2);
    let spent_note = clean.spendable[0];

    let spent = SpentSet::from_parts(Some((0, tip)), vec![(tip - 1, nullifier_of(1))]);
    let after = match_mined(&[(0, MINE)], &chain, &spent);
    assert_eq!(after.spendable.len(), 1, "one note survives");
    assert_eq!(after.spent.len(), 1, "and the spent one is REPORTED, not dropped");
    assert_eq!(after.spent[0].minted_height, spent_note.minted_height);
    assert_eq!(after.spent[0].spent_height, Some(tip - 1), "the chain's own date");
    assert_eq!(after.spent_value(), u128::from(spent_note.note.value));
    assert_eq!(after.spendable_value(), spent_note.note.value as u128);
    assert!(!after.spent[0].is_spendable(), "a spent note is not spendable");
}

#[test]
fn the_maturity_threshold_is_the_append_schedules_own() {
    let at = leaf_at(1);
    let mined_at_1 = |tip: u64| {
        let mut blocks = vec![blk(0, [0; 4], 0), blk(1, MINE, 5_000)];
        for h in 2..=tip {
            blocks.push(blk(h, [9; 4], 5_000));
        }
        let chain = MinedChain { covered: Some((0, tip)), blocks };
        match_mined(&[(0, MINE)], &chain, &SpentSet::empty())
    };

    let early = mined_at_1(at - 1);
    assert_eq!(early.spendable.len(), 0, "one block short of maturity, nothing is spendable");
    assert_eq!(early.maturing.len(), 1);
    assert_eq!(early.next_maturity(), Some(at), "and the height it changes at is reported");
    assert_eq!(
        early.maturing[0].maturity,
        CoinbaseMaturity::Immature { leaf_at: at, blocks_remaining: 1 }
    );

    let ready = mined_at_1(at);
    assert_eq!(ready.spendable.len(), 1, "at maturity the leaf exists and the note counts");
    assert_eq!(ready.next_maturity(), None);
    assert_eq!(ready.spendable[0].maturity, CoinbaseMaturity::Matured { leaf_at: at });
    assert_eq!(coinbase_maturity(10, 9), CoinbaseMaturity::Immature { leaf_at: 10, blocks_remaining: 1 });
}
