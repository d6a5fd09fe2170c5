use qumbra_wallet::sync::{
    cache_bytes, hex32, parse_cache, select_anchor, sync_and_select, sync_tree, AnchorSource,
    Anchors, LeafChunk, LeafSource, SyncRefusal, TreeCatchUp, LEAVES_FILE_VERSION,
};
use std::cell::RefCell;

fn cm(seed: u64) -> [u8; 32] {
    let mut out = [0u8; 32];
    for i in 0..4u64 {
        let lane = seed.wrapping_mul(0x9e3779b97f4a7c15).wrapping_add(i + 1);
        out[i as usize * 8..i as usize * 8 + 8].copy_from_slice(&lane.to_le_bytes());
    }
    out
}

/// A stand-in for a tree's root: any fold that tells leaves apart will do.
fn root_of_leaves(leaves: &[[u8; 32]]) -> [u8; 32] {
    let mut acc = [leaves.len() as u8; 32];
    for leaf in leaves {
        for (i, b) in leaf.iter().enumerate() {
            acc[i] = acc[i].wrapping_mul(31).wrapping_add(*b).rotate_left(3);
        }
    }
    acc
}

fn root_of(n: u64) -> [u8; 32] {
    root_of_leaves(&(0..n).map(cm).collect::<Vec<_>>())
}

fn roots_of(leaves: &[[u8; 32]]) -> Vec<[u8; 32]> {
    (0..=leaves.len()).map(|n| root_of_leaves(&leaves[..n])).collect()
}

struct Honest {
    leaves: Vec<[u8; 32]>,
    chunk: usize,
    asked: RefCell<Vec<u64>>,
}

impl Honest {
    fn new(n: u64, chunk: usize) -> Honest {
        Honest { leaves: (0..n).map(cm).collect(), chunk, asked: RefCell::new(Vec::new()) }
    }
}

impl LeafSource for Honest {
    fn fetch_from(&self, from: u64) -> Result<LeafChunk, String> {
        self.asked.borrow_mut().push(from);
        let total = self.leaves.len() as u64;
        let start = (from.min(total)) as usize;
        let end = (start + self.chunk).min(self.leaves.len());
        Ok(LeafChunk { from, total, leaves: self.leaves[start..end].to_vec() })
    }
}

struct At(Vec<u64>, u64, Option<u64>);
impl AnchorSource for At {
    fn anchors(&self) -> Result<Anchors, String> {
        Ok(Anchors {
            tip_height: self.1,
            finalized_height: self.2,
            max_age_blocks: 1152,
            roots: self.0.iter().map(|c| root_of(*c)).collect(),
        })
    }
}

#[test]
fn a_fresh_sync_downloads_chunks_and_persists() {
    let src = Honest::new(10, 3);
    let s = sync_tree(Vec::new(), &src).unwrap();
    assert_eq!(s.count, 10);
    assert_eq!(s.fetched, 10);
    assert_eq!(s.leaves.len(), 10);
    assert_eq!(*src.asked.borrow(), vec![0, 3, 6, 9], "bounded chunks, client loops");
    let cache = cache_bytes(&s.leaves);
    assert_eq!(cache.len(), 1 + 10 * 32);
    assert_eq!(cache[0], LEAVES_FILE_VERSION);
    assert_eq!(parse_cache(&cache).unwrap(), s.leaves);
}

#[test]
fn a_second_sync_resumes_from_the_high_water_mark_never_redownloading() {
    let first = sync_tree(Vec::new(), &Honest::new(6, 100)).unwrap();
    let grown = Honest::new(9, 100);
    let s = sync_tree(first.leaves, &grown).unwrap();
    assert_eq!(s.count, 9);
    assert_eq!(s.fetched, 3, "only the new leaves travel");
    assert_eq!(*grown.asked.borrow(), vec![6], "resume point is the cached count");

    let same = Honest::new(9, 100);
    let s2 = sync_tree(s.leaves, &same).unwrap();
    assert_eq!(s2.fetched, 0);
    assert_eq!(s2.count, 9);
}

#[test]
fn the_selected_anchor_is_the_newest_finalized_one_not_the_local_tip() {
    let synced = sync_tree(Vec::new(), &Honest::new(12, 100)).unwrap();
    assert_eq!(synced.count, 12, "the wallet holds the served tip");
    let anchor = select_anchor(
        &roots_of(&synced.leaves),
        At(vec![8, 10], 40, Some(33)).anchors().unwrap(),
    )
    .expect("a finalized anchor is selectable");
    assert_eq!(anchor.count, 10, "the LARGEST valid anchor, not the local tip");
    assert_eq!(anchor.root, root_of(10));
    assert_eq!(anchor.leaves_behind_local, 2, "and it is honestly behind the tip");
    assert_eq!(anchor.finalized_height, Some(33));
}

struct Doctored;
impl LeafSource for Doctored {
    fn fetch_from(&self, from: u64) -> Result<LeafChunk, String> {
        Ok(LeafChunk { from, total: 6, leaves: (from..6).map(|i| cm(i + 9_000)).collect() })
    }
}

#[test]
fn a_doctored_stream_matches_no_served_anchor_and_is_refused_by_name() {
    let synced = sync_tree(Vec::new(), &Doctored).unwrap();
    let e = match select_anchor(
        &roots_of(&synced.leaves),
        At(vec![4, 6], 20, Some(18)).anchors().unwrap(),
    ) {
        Err(e) => e,
        Ok(a) => panic!("a doctored stream must not yield an anchor, got {a:?}"),
    };
    assert!(matches!(e, SyncRefusal::NoVerifiedAnchor { local_count: 6, served_roots: 2, .. }));
    let msg = e.message();
    assert!(msg.contains("censorship, not forgery"), "{msg}");
    assert!(msg.contains("no proof was spent"), "{msg}");
}

#[test]
fn a_chain_with_nothing_finalized_refuses_by_a_different_name() {
    let synced = sync_tree(Vec::new(), &Honest::new(5, 100)).unwrap();
    let e = select_anchor(
        &roots_of(&synced.leaves),
        Anchors { tip_height: 7, ..Anchors::default() },
    )
    .unwrap_err();
    assert!(matches!(e, SyncRefusal::NoAnchorsYet { tip_height: 7 }));
    assert!(e.message().contains("wait for the first checkpoint"), "{}", e.message());
}

struct WrongEcho;
impl LeafSource for WrongEcho {
    fn fetch_from(&self, _from: u64) -> Result<LeafChunk, String> {
        Ok(LeafChunk { from: 7, total: 9, leaves: vec![cm(0), cm(1)] })
    }
}

#[test]
fn a_page_answering_the_wrong_offset_is_refused_before_it_is_appended() {
    let e = sync_tree(Vec::new(), &WrongEcho).unwrap_err();
    assert!(matches!(e, SyncRefusal::FromMismatch { asked: 0, got: 7 }));
    let mut catch = TreeCatchUp::new(Vec::new());
    assert!(catch.supply(WrongEcho.fetch_from(0).unwrap()).is_err());
    assert!(catch.leaves.is_empty(), "nothing was appended");
}

#[test]
fn an_endpoint_behind_the_cache_is_refused_not_rewound() {
    let first = sync_tree(Vec::new(), &Honest::new(8, 100)).unwrap();
    let e = match sync_tree(first.leaves, &Honest::new(5, 100)) {
        Err(e) => e,
        Ok(_) => panic!("an endpoint behind the cache must refuse"),
    };
    assert!(matches!(e, SyncRefusal::StreamBehindLocal { served: 5, local: 8 }));
    assert!(e.message().contains("never rewinds"), "{}", e.message());
}

struct LeavesDown;
impl LeafSource for LeavesDown {
    fn fetch_from(&self, _: u64) -> Result<LeafChunk, String> {
        Err("connection refused".into())
    }
}

#[test]
fn an_unreachable_endpoint_is_a_named_refusal() {
    let e = sync_tree(Vec::new(), &LeavesDown).unwrap_err();
    assert!(matches!(e, SyncRefusal::Endpoint { .. }));
    assert!(e.message().contains("connection refused"), "{}", e.message());
}

struct Stall;
impl LeafSource for Stall {
    fn fetch_from(&self, from: u64) -> Result<LeafChunk, String> {
        Ok(LeafChunk { from, total: 5, leaves: (from..2).map(cm).collect() })
    }
}

#[test]
fn a_stalling_endpoint_is_refused_not_polled_forever() {
    let e = sync_tree(Vec::new(), &Stall).unwrap_err();
    assert!(matches!(e, SyncRefusal::NoProgress { at: 2, claimed: 5 }));
    assert!(e.message().contains("refusing to poll it forever"));
}

struct Overshoot;
impl LeafSource for Overshoot {
    fn fetch_from(&self, from: u64) -> Result<LeafChunk, String> {
        Ok(LeafChunk { from, total: 3, leaves: (from..4).map(cm).collect() })
    }
}

#[test]
fn a_chunk_overshooting_its_own_size_claim_is_malformed() {
    let e = sync_tree(Vec::new(), &Overshoot).unwrap_err();
    assert!(matches!(e, SyncRefusal::Endpoint { .. }));
    assert!(e.message().contains("overshoots"), "{}", e.message());
}

#[test]
fn a_corrupt_cache_is_refused_by_name_with_the_safe_fix() {
    let why = parse_cache(&[9u8]).unwrap_err();
    let e = SyncRefusal::BadCache { path: "leaves".to_string(), why };
    let msg = e.message();
    assert!(msg.contains("version 9"), "{msg}");
    assert!(msg.contains("delete it"), "{msg}");
    assert!(msg.contains("no funds at stake"), "{msg}");

    let mut torn = vec![LEAVES_FILE_VERSION];
    torn.extend_from_slice(&[0u8; 33]);
    let why = parse_cache(&torn).unwrap_err();
    let e = SyncRefusal::BadCache { path: "leaves".to_string(), why };
    assert!(e.message().contains("torn write"), "{}", e.message());
    assert!(parse_cache(&[]).is_err());
}

struct Growing;
impl LeafSource for Growing {
    fn fetch_from(&self, from: u64) -> Result<LeafChunk, String> {
        let total: u64 = if from < 4 { 4 } else { 6 };
        Ok(LeafChunk { from, total, leaves: (from..total).map(cm).collect() })
    }
}

#[test]
fn a_growing_endpoint_is_chased_to_its_latest_claim() {
    let s = sync_tree(Vec::new(), &Growing).unwrap();
    assert_eq!(s.count, 4);
    let s2 = sync_tree(s.leaves, &Growing).unwrap();
    assert_eq!(s2.count, 6);
    assert_eq!(s2.fetched, 2);
}

struct Foreign;
impl AnchorSource for Foreign {
    fn anchors(&self) -> Result<Anchors, String> {
        Ok(Anchors {
            tip_height: 12,
            finalized_height: Some(12),
            max_age_blocks: 1152,
            roots: vec![[0x5A; 32]],
        })
    }
}

#[test]
fn sync_and_select_runs_both_steps_and_keeps_the_cache_on_a_refused_selection() {
    let (synced, walk) =
        sync_and_select(Vec::new(), &Honest::new(9, 4), &At(vec![9], 12, Some(12))).unwrap();
    assert_eq!(synced.count, 9);
    let mut walk = walk.unwrap();
    let anchor = walk.supply(&root_of_leaves(&synced.leaves)).unwrap().unwrap();
    assert_eq!(anchor.count, 9);
    assert_eq!(anchor.leaves_behind_local, 0);

    let before = cache_bytes(&synced.leaves);
    let (again, walk) = sync_and_select(Vec::new(), &Honest::new(9, 4), &Foreign).unwrap();
    let mut walk = walk.unwrap();
    let mut end = None;
    for n in (0..=9u64).rev() {
        assert!(end.is_none());
        end = walk.supply(&root_of(n));
    }
    let e = end.unwrap().unwrap_err();
    assert!(matches!(e, SyncRefusal::NoVerifiedAnchor { .. }));
    assert_eq!(cache_bytes(&again.leaves), before, "the leaves are kept");
}

struct AnchorsDown;
impl AnchorSource for AnchorsDown {
    fn anchors(&self) -> Result<Anchors, String> {
        Err("connection refused".into())
    }
}

#[test]
fn an_unreachable_anchor_endpoint_is_an_endpoint_refusal_not_an_empty_set() {
    let (_, walk) = sync_and_select(Vec::new(), &Honest::new(3, 100), &AnchorsDown).unwrap();
    let e = match walk {
        Err(e) => e,
        Ok(_) => panic!("no anchors were read"),
    };
    assert!(matches!(e, SyncRefusal::Endpoint { .. }));
    assert!(e.message().contains("connection refused"), "{}", e.message());
}

#[test]
fn a_hash_is_shown_in_hexadecimal() {
    assert_eq!(hex32(&[0xAB; 32]), "ab".repeat(32));
}
