use qumbra_wallet::note::{LocatedNote, Note};
use qumbra_wallet::spent::{
    fetch_spent, subtract_spent, NullifierChunk, NullifierSource, SpentCatchUp, SpentRefusal,
    SpentSet,
};

fn nf(b: u8) -> [u8; 32] {
    [b; 32]
}

struct Honest {
    blocks: Vec<(u64, Vec<[u8; 32]>)>,
    page: usize,
    asked: std::cell::RefCell<Vec<(u64, u64)>>,
}

impl Honest {
    fn new(heights: std::ops::RangeInclusive<u64>, page: usize) -> Honest {
        Honest {
            blocks: heights.map(|h| (h, vec![nf(h as u8)])).collect(),
            page,
            asked: std::cell::RefCell::new(Vec::new()),
        }
    }
}

impl NullifierSource for Honest {
    fn fetch_range(&self, from: u64, to: u64) -> Result<NullifierChunk, String> {
        self.asked.borrow_mut().push((from, to));
        let blocks: Vec<(u64, Vec<[u8; 32]>)> = self
            .blocks
            .iter()
            .filter(|(h, _)| *h >= from && *h <= to)
            .take(self.page)
            .cloned()
            .collect();
        Ok(NullifierChunk { from, to, blocks })
    }
}

#[test]
fn spent_the_stream_is_paged_until_the_range_is_in_hand() {
    let src = Honest::new(0..=9, 4);
    let set = fetch_spent(&src, 0, 9).expect("an honest stream pages");
    assert_eq!(set.covered, Some((0, 9)));
    assert_eq!(set.len(), 10, "every block's nullifier arrived");
    assert_eq!(
        *src.asked.borrow(),
        vec![(0, 9), (4, 9), (8, 9)],
        "resume at the last height + 1, never from the start"
    );
    for h in 0..=9u8 {
        assert!(set.contains(&nf(h)));
    }
    assert!(set.covers_outputs(Some((0, 9))).is_ok());
}

#[test]
fn a_stream_short_of_the_outputs_refuses_rather_than_under_subtracting() {
    let src = Honest::new(0..=6, 100);
    let set = fetch_spent(&src, 0, 9).expect("the pages themselves are well-formed");
    assert_eq!(set.covered, Some((0, 6)), "it covers what it served, honestly");
    let e = set.covers_outputs(Some((0, 9))).unwrap_err();
    assert_eq!(e, SpentRefusal::NotCovered { covered: Some((0, 6)), outputs: (0, 9) });
    assert!(e.message().contains("cannot be quoted"), "{}", e.message());
    assert!(set.covers_outputs(Some((0, 6))).is_ok());
    assert!(set.covers_outputs(None).is_ok(), "no outputs, nothing to cover");
    let late = fetch_spent(&Honest::new(4..=9, 100), 0, 9).unwrap();
    assert_eq!(late.covered, Some((4, 9)), "a leading edge above `from` is legal");
    assert_eq!(
        late.covers_outputs(Some((1, 9))).unwrap_err(),
        SpentRefusal::NotCovered { covered: Some((4, 9)), outputs: (1, 9) },
        "and is judged against where the outputs actually came from"
    );
    assert!(late.covers_outputs(Some((4, 9))).is_ok());
}

struct Holed;
impl NullifierSource for Holed {
    fn fetch_range(&self, from: u64, to: u64) -> Result<NullifierChunk, String> {
        Ok(NullifierChunk { from, to, blocks: vec![(0, vec![]), (2, vec![nf(2)])] })
    }
}

struct HoledAcrossPages;
impl NullifierSource for HoledAcrossPages {
    fn fetch_range(&self, from: u64, to: u64) -> Result<NullifierChunk, String> {
        let blocks =
            if from == 0 { vec![(0, vec![]), (1, vec![])] } else { vec![(3, vec![nf(3)])] };
        Ok(NullifierChunk { from, to, blocks })
    }
}

#[test]
fn a_missing_height_is_a_gap_and_never_read_as_an_empty_block() {
    let e = fetch_spent(&Holed, 0, 3).unwrap_err();
    assert_eq!(e, SpentRefusal::Gap { expected: 1, got: 2 });
    assert!(e.message().contains("not an empty block"), "{}", e.message());
    assert_eq!(
        fetch_spent(&HoledAcrossPages, 0, 5).unwrap_err(),
        SpentRefusal::Gap { expected: 2, got: 3 }
    );
}

struct WrongEcho;
impl NullifierSource for WrongEcho {
    fn fetch_range(&self, _from: u64, _to: u64) -> Result<NullifierChunk, String> {
        Ok(NullifierChunk { from: 7, to: 9, blocks: vec![] })
    }
}

#[test]
fn a_page_answering_a_different_range_is_refused() {
    assert_eq!(
        fetch_spent(&WrongEcho, 0, 9).unwrap_err(),
        SpentRefusal::RangeMismatch { asked: (0, 9), got: (7, 9) }
    );
}

struct Backwards;
impl NullifierSource for Backwards {
    fn fetch_range(&self, from: u64, to: u64) -> Result<NullifierChunk, String> {
        Ok(NullifierChunk {
            from,
            to,
            blocks: vec![(0, vec![]), (1, vec![]), (1, vec![nf(9)])],
        })
    }
}

#[test]
fn a_descending_or_repeated_height_is_refused() {
    assert_eq!(
        fetch_spent(&Backwards, 0, 3).unwrap_err(),
        SpentRefusal::NotAscending { previous: 1, height: 1 }
    );
}

struct Beyond;
impl NullifierSource for Beyond {
    fn fetch_range(&self, from: u64, to: u64) -> Result<NullifierChunk, String> {
        Ok(NullifierChunk { from, to, blocks: vec![(to + 1, vec![])] })
    }
}

#[test]
fn a_height_outside_the_range_is_refused() {
    assert_eq!(
        fetch_spent(&Beyond, 0, 3).unwrap_err(),
        SpentRefusal::OutOfRange { height: 4, asked: (0, 3) }
    );
}

struct Down;
impl NullifierSource for Down {
    fn fetch_range(&self, _: u64, _: u64) -> Result<NullifierChunk, String> {
        Err("non-200 response: HTTP/1.1 404 Not Found".into())
    }
}

#[test]
fn an_unreachable_endpoint_is_a_refusal_not_an_empty_set() {
    let e = fetch_spent(&Down, 0, 9).unwrap_err();
    assert!(matches!(e, SpentRefusal::Endpoint { .. }));
    assert!(e.message().contains("404"), "{}", e.message());
    assert!(e.message().contains("not quotable"), "{}", e.message());
}

#[test]
fn a_range_the_endpoint_does_not_reach_is_empty_and_covers_nothing() {
    let set = fetch_spent(&Honest::new(0..=3, 100), 8, 9).unwrap();
    assert_eq!(set.covered, None);
    assert!(set.is_empty());
    assert!(set.covers_outputs(None).is_ok());
    assert_eq!(
        set.covers_outputs(Some((8, 9))).unwrap_err(),
        SpentRefusal::NotCovered { covered: None, outputs: (8, 9) }
    );
}

#[test]
fn a_stream_comes_to_its_blocks_however_it_is_paged() {
    for page in [1, 2, 3, 7, 100] {
        let mut src = Honest::new(2..=8, page);
        src.blocks[4].1.push(nf(3));
        src.blocks[5].1.clear();
        let set = fetch_spent(&src, 0, 20).unwrap();
        assert_eq!(set.covered, Some((2, 8)), "the first block to the last");
        assert_eq!(set.len(), 6, "what the blocks publish and nothing else");
        assert_eq!(set.height_of(&nf(3)), Some(3), "the first block that published it");
        assert_eq!(set.height_of(&nf(6)), Some(6));
        assert_eq!(set.height_of(&nf(7)), None, "a block that spends nothing");
        assert_eq!(src.asked.borrow().last(), Some(&(9, 20)), "read on until nothing comes");
    }
}

struct Repeated;
impl NullifierSource for Repeated {
    fn fetch_range(&self, from: u64, to: u64) -> Result<NullifierChunk, String> {
        Ok(NullifierChunk {
            from,
            to,
            blocks: vec![(0, vec![]), (1, vec![nf(7)]), (2, vec![nf(7)])],
        })
    }
}

#[test]
fn each_nullifier_carries_the_height_that_published_it_first() {
    let src = Honest::new(0..=5, 100);
    let set = fetch_spent(&src, 0, 5).unwrap();
    for h in 0..=5u8 {
        assert_eq!(set.height_of(&nf(h)), Some(u64::from(h)), "block {h}'s own nullifier");
    }
    assert_eq!(set.height_of(&nf(99)), None, "a nullifier nobody published");

    let set = fetch_spent(&Repeated, 0, 2).unwrap();
    assert_eq!(set.height_of(&nf(7)), Some(1));
    assert_eq!(set.len(), 1, "one nullifier, however many times it was served");

    let built =
        SpentSet::from_parts(Some((0, 9)), vec![(4, nf(3)), (9, nf(3)), (5, nf(4))]);
    assert_eq!(built.height_of(&nf(3)), Some(4));
    assert_eq!(built.height_of(&nf(4)), Some(5));
}

fn located(value: u64, rho: [u64; 4], height: u64, nullifier: [u8; 32]) -> LocatedNote {
    LocatedNote {
        height,
        tx_index: 0,
        recipient_index: 0,
        cm: [value as u8; 32],
        note: Note { value, rkm: [4; 4], rho, rseed: [5, 5, 5, 5] },
        nullifier,
    }
}

struct Chain([u8; 32]);
impl NullifierSource for Chain {
    fn fetch_range(&self, from: u64, to: u64) -> Result<NullifierChunk, String> {
        Ok(NullifierChunk {
            from,
            to,
            blocks: (from..=to).map(|h| (h, if h == 7 { vec![self.0] } else { vec![] })).collect(),
        })
    }
}

#[test]
fn a_note_whose_nullifier_is_on_chain_stops_being_spendable() {
    let spent_note = located(1_000_000_000, [1, 1, 1, 1], 5, nf(0xA1));
    let live_note = located(899_000_000, [2, 2, 2, 2], 6, nf(0xA2));
    let notes = vec![spent_note, live_note];
    let set = fetch_spent(&Chain(nf(0xA1)), 0, 9).unwrap();

    let report = subtract_spent(&notes, &set);
    assert_eq!(report.spendable.len(), 1, "one note survives");
    assert_eq!(report.spendable[0].note.rho, live_note.note.rho);
    assert_eq!(report.spendable_value(), 899_000_000);
    assert_eq!(report.spent.len(), 1, "and the spent one is REPORTED, not dropped");
    assert_eq!(report.spent_value(), 1_000_000_000);
    assert_eq!(report.spent[0].nullifier, nf(0xA1));
    assert_eq!(report.spent[0].spent_height, 7);
    assert_eq!(report.spent[0].note.height, 5, "the note's own height is untouched");

    let never = subtract_spent(&notes[1..], &set);
    assert_eq!(never.spendable.len(), 1);
    assert!(never.spent.is_empty());
    assert_eq!(never.spendable_value(), 899_000_000);
}

#[test]
fn a_catch_up_asks_for_what_is_left() {
    let mut c = SpentCatchUp::new(3, 6);
    assert_eq!(c.want(), Some((3, 6)));
    c.supply(NullifierChunk { from: 3, to: 6, blocks: vec![(3, vec![nf(1)]), (4, vec![])] })
        .unwrap();
    assert_eq!(c.want(), Some((5, 6)));
    c.supply(NullifierChunk { from: 5, to: 6, blocks: vec![] }).unwrap();
    assert_eq!(c.want(), None);
    let set = c.finish();
    assert_eq!(set.covered, Some((3, 4)));
    assert_eq!(set.height_of(&nf(1)), Some(3));
}
