use qumbra_wallet::annulet_send::{AssetIndex, AssetNotes, OwnedL2Note, SendRefusal, SpendError};
use qumbra_wallet::issuer::{
    allow_update, check_registration, check_slot_empty, empty_leaf, freeze_update, hex32,
    is_registry_race, lanes_hex, leaf_with, mint_base, parse_mode, read_allow_list, read_key_list,
    redeem_note, redeem_secret, registration_secret, registry_fee, unhex32, update_leaf,
    write_allow_list, write_key_list, write_outcome, IssuerFile, LeafPolicy, PolicyRoots,
    RegistryLeaf, MODE_CLOAKED, MODE_HYBRID, MODE_REGULATED,
};
use qumbra_wallet::random::os_rng;

#[test]
fn the_issuer_file_round_trips_and_never_overwrites() {
    assert_eq!(IssuerFile::load(None), Ok(None), "no file: not an issuer");
    let mut f = IssuerFile::empty();
    f.add(2, [1, 2, 3, 4]).unwrap();
    f.add(7, [5, 6, 7, 8]).unwrap();
    let mut f = IssuerFile::load(Some(&f.encode())).unwrap().unwrap();
    assert_eq!((f.isk(2), f.isk(7), f.isk(9)), (Some([1, 2, 3, 4]), Some([5, 6, 7, 8]), None));
    assert!(f.add(2, [9; 4]).is_err(), "never overwritten");
    assert!(IssuerFile::load(Some("other\n")).unwrap_err().contains("unknown header"));
}

fn key_of(isk: &[u64; 4]) -> [u64; 4] {
    [isk[3] + 1, isk[2], isk[1], isk[0] + 7]
}

fn isk_for_key(f: &mut IssuerFile, asset: u16, key: &[u64; 4]) -> Option<[u64; 4]> {
    let current = f.isk(asset).map(|s| key_of(&s));
    let pending = f.next.get(asset).map(|s| key_of(&s));
    f.isk_for_key(asset, current, pending, key)
}

#[test]
fn a_rotation_is_pending_until_the_chain_shows_it() {
    let (old, new) = ([1u64, 2, 3, 4], [5u64, 6, 7, 8]);
    let mut f = IssuerFile::empty();
    assert!(f.set_next(2, new).is_err(), "nothing to rotate");
    f.add(2, old).unwrap();
    f.set_next(2, new).unwrap();
    f.set_next(2, new).unwrap();
    assert!(f.set_next(2, [9; 4]).is_err(), "a second pending rotation is refused");
    let text = f.encode();
    assert!(text.contains("asset 2 isk ") && text.contains("asset 2 next "), "{text}");
    assert_eq!(isk_for_key(&mut f, 2, &key_of(&old)), Some(old));
    assert_eq!(IssuerFile::load(Some(&f.encode())).unwrap().unwrap().next.get(2), Some(new));
    assert_eq!(isk_for_key(&mut f, 2, &key_of(&[7; 4])), None);
    assert_eq!(isk_for_key(&mut f, 2, &key_of(&new)), Some(new));
    let f = IssuerFile::load(Some(&f.encode())).unwrap().unwrap();
    assert_eq!((f.isk(2), f.next.get(2)), (Some(new), None));
}

#[test]
fn a_freeze_list_round_trips_and_updates_its_canonical_root() {
    let (a, b) = ([4u64, 0, 0, 1], [4u64, 0, 0, 2]);
    let one = freeze_update(&[], a, true);
    let two = freeze_update(&one, b, true);
    assert_eq!(read_key_list(&write_key_list(&two)).unwrap(), two);
    assert!(two.contains(&a));
    let back = freeze_update(&two, b, false);
    assert_eq!(back, one, "remove undoes add");
    assert!(read_key_list("not a list").is_err());
}

#[test]
fn an_allow_list_round_trips_and_updates_its_canonical_root() {
    let (a, b) = ([5u64, 0, 0, 1], [5u64, 0, 0, 2]);
    let one = allow_update(&[], a, true);
    let two = allow_update(&one, b, true);
    assert_eq!(read_allow_list(&write_allow_list(&two)).unwrap(), two);
    assert!(two.contains(&a));
    assert_eq!(allow_update(&two, b, false), one, "remove undoes add");
    assert!(
        read_allow_list(&write_key_list(&two)).is_err(),
        "a freeze list is not an allow list"
    );
}

const REDEEM_OPEN: u64 = 1;

fn freeze_root(keys: &[[u64; 4]]) -> [u64; 4] {
    let mut acc = [0xF0; 4];
    for k in keys {
        for i in 0..4 {
            acc[i] = acc[i] * 31 + k[i];
        }
    }
    acc
}

fn allow_root(creds: &[[u64; 4]]) -> [u64; 4] {
    let mut acc = [0xA0; 4];
    for k in creds {
        for i in 0..4 {
            acc[i] = acc[i] * 31 + k[i];
        }
    }
    acc
}

fn roots(p: &LeafPolicy) -> PolicyRoots {
    PolicyRoots {
        freeze: freeze_root(p.freeze_keys.as_deref().unwrap_or(&[])),
        allow: allow_root(p.allow_creds.as_deref().unwrap_or(&[])),
        no_freeze: freeze_root(&[]),
    }
}

fn with(base: RegistryLeaf, p: &LeafPolicy, key: [u64; 4]) -> Result<RegistryLeaf, SendRefusal> {
    leaf_with(base, p, key, &roots(p), REDEEM_OPEN)
}

fn nothing() -> LeafPolicy {
    LeafPolicy { mode: None, freeze_keys: None, allow_creds: None, redeem_open: None }
}

#[test]
fn leaf_policy_keeps_mode_implies_roots() {
    let key = [3u64; 4];
    let blank = |asset: u64| RegistryLeaf {
        asset,
        issuer_key: [0; 4],
        mode: MODE_CLOAKED,
        freeze_root: [0; 4],
        allow_root: [0; 4],
        flags: 0,
    };
    let p = |mode: u64| LeafPolicy { mode: Some(mode), ..nothing() };
    let refused =
        |r: Result<RegistryLeaf, SendRefusal>| matches!(r, Err(SendRefusal::LeafRefused(_)));
    let c = with(blank(11), &p(MODE_CLOAKED), key).unwrap();
    assert_eq!((c.freeze_root, c.allow_root, c.flags, c.issuer_key), ([0; 4], [0; 4], 0, key));
    let h = with(blank(12), &p(MODE_HYBRID), key).unwrap();
    assert_eq!(
        (h.freeze_root, h.allow_root),
        (freeze_root(&[]), [0; 4]),
        "an empty canonical freeze tree"
    );
    assert!(refused(with(blank(13), &p(MODE_REGULATED), key)), "Regulated needs its allow list");
    let creds = vec![[1u64, 2, 3, 4]];
    let r = with(
        blank(13),
        &LeafPolicy { allow_creds: Some(creds.clone()), ..p(MODE_REGULATED) },
        key,
    )
    .unwrap();
    assert_eq!(r.allow_root, allow_root(&creds));
    assert!(refused(with(blank(0), &p(MODE_HYBRID), key)), "asset 0");
    assert!(refused(with(
        blank(11),
        &LeafPolicy { freeze_keys: Some(vec![]), ..p(MODE_CLOAKED) },
        key
    )));
    assert!(refused(with(
        blank(11),
        &LeafPolicy { redeem_open: Some(true), ..p(MODE_CLOAKED) },
        key
    )));
    assert!(refused(with(
        blank(12),
        &LeafPolicy { allow_creds: Some(creds.clone()), ..p(MODE_HYBRID) },
        key
    )));
    assert!(refused(with(blank(12), &p(3), key)), "mode 3");
    let frozen = LeafPolicy {
        freeze_keys: Some(vec![[9u64; 4]]),
        redeem_open: Some(true),
        ..nothing()
    };
    let h2 = with(h, &frozen, key).unwrap();
    assert_eq!((h2.freeze_root, h2.flags), (freeze_root(&[[9u64; 4]]), REDEEM_OPEN));
    let r2 = with(
        h2,
        &LeafPolicy { allow_creds: Some(creds.clone()), ..p(MODE_REGULATED) },
        key,
    )
    .unwrap();
    assert_eq!(
        (r2.freeze_root, r2.allow_root, r2.flags),
        (h2.freeze_root, r.allow_root, REDEEM_OPEN)
    );
    let c2 = with(r2, &p(MODE_CLOAKED), key).unwrap();
    assert_eq!((c2.freeze_root, c2.allow_root, c2.flags, c2.asset), ([0; 4], [0; 4], 0, 12));
}

#[test]
fn modes_are_named() {
    assert_eq!(parse_mode("cloaked"), Some(MODE_CLOAKED));
    assert_eq!(parse_mode("hybrid"), Some(MODE_HYBRID));
    assert_eq!(parse_mode("regulated"), Some(MODE_REGULATED));
    assert_eq!(parse_mode("open"), None);
}

#[test]
fn a_registration_is_checked_and_keeps_its_secret() {
    let p = LeafPolicy { mode: Some(MODE_HYBRID), ..nothing() };
    assert!(check_registration(4, &p, &roots(&p), REDEEM_OPEN).is_ok());
    assert!(check_registration(0, &p, &roots(&p), REDEEM_OPEN).is_err());
    assert!(check_slot_empty(4, false).is_ok());
    assert!(check_slot_empty(4, true).is_err());
    assert_eq!(empty_leaf(4).asset, 4);
    let mut f = IssuerFile::empty();
    let mut rng = os_rng();
    let (isk, fresh) = registration_secret(&mut f, 4, &mut rng);
    assert!(fresh);
    let (again, fresh) = registration_secret(&mut f, 4, &mut rng);
    assert!(!fresh);
    assert_eq!(isk, again, "a secret that is there is used again");
}

#[test]
fn an_update_keeps_the_key_unless_it_rotates() {
    let served = RegistryLeaf {
        asset: 5,
        issuer_key: [1; 4],
        mode: MODE_HYBRID,
        freeze_root: freeze_root(&[]),
        allow_root: [0; 4],
        flags: 0,
    };
    let p = nothing();
    assert!(matches!(
        update_leaf(served, &p, None, &roots(&p), REDEEM_OPEN),
        Err(SendRefusal::LeafRefused(_))
    ));
    let rotated = update_leaf(served, &p, Some([2; 4]), &roots(&p), REDEEM_OPEN).unwrap();
    assert_eq!(rotated, RegistryLeaf { issuer_key: [2; 4], ..served });
}

fn index(notes: &[(u16, u64)]) -> AssetIndex {
    let mut by_asset: Vec<AssetNotes> = Vec::new();
    for (k, &(asset, value)) in notes.iter().enumerate() {
        let n = OwnedL2Note { value, asset, cm: [k as u8; 32] };
        match by_asset.iter_mut().find(|a| a.asset == asset) {
            Some(a) => a.spendable.push(n),
            None => by_asset.push(AssetNotes { asset, spendable: vec![n], spent: vec![] }),
        }
    }
    AssetIndex { by_asset }
}

#[test]
fn a_registry_write_pays_from_the_smallest_note_that_covers() {
    assert_eq!(registry_fee(&index(&[(0, 9), (0, 5), (0, 3)]), 4).unwrap(), 1);
    assert!(registry_fee(&index(&[(0, 3), (1, 9)]), 4).is_err());
}

#[test]
fn a_mint_and_a_redemption_take_their_notes() {
    let held = index(&[(3, 10), (3, 40), (0, 1)]);
    assert!(mint_base(&held, 3).is_ok());
    let (at, rest) = redeem_note(&held, 3, 15).unwrap();
    assert_eq!((held.spendable(3)[at].value, rest), (40, 25));
    assert_eq!(
        redeem_note(&held, 3, 50),
        Err(SendRefusal::NoSingleNoteCovers { asset: 3, amount: 50, largest: 40 })
    );
    assert_eq!(redeem_secret(3, Some([1; 4]), false).unwrap(), [1; 4]);
    assert!(redeem_secret(3, None, false).is_err());
    assert_eq!(redeem_secret(3, None, true).unwrap(), [0; 4]);
}

#[test]
fn a_lost_race_for_the_registry_is_named() {
    assert!(write_outcome(Ok(())).is_ok());
    assert!(!is_registry_race("wrong-fee"));
    assert!(matches!(
        write_outcome(Err(SpendError::Refused("wrong-fee".to_string()))),
        Err(_)
    ));
}

#[test]
fn keys_are_written_in_hexadecimal() {
    assert_eq!(lanes_hex(&[1, 0, 0, 0]), format!("01{}", "00".repeat(31)));
    let h: Vec<char> = hex32(&[0xAB; 32]).chars().collect();
    assert_eq!(unhex32(&h), Some([0xAB; 32]));
    assert_eq!(unhex32(&h[1..]), None);
}
