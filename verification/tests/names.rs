use qumbra_wallet::names::{
    bare_name, BlockNames, NameOp, NameRecord, NameRules, NamesPage, PinVerdict, Pins, Resolution,
    WalletRegistry, REGISTRY_HEADER,
};
use qumbra_wallet::register::{
    prepare_registration, registration, renewal_op, Prepared, RegisterState,
    RegisterStep, REG_HEADER, REG_HEADER_V1, REG_HEADER_V2,
};
use qumbra_wallet::register_run::{
    flight, names_register, preserve, record_commit, recorded_text, repost_outcome, Flight,
    RegisterAction,
};
use qumbra_wallet::net::SubmitAnswer;
use qumbra_wallet::store::{Seed, WalletDir};

const NAME_TERM_BLOCKS: u64 = 420_480;
const NAME_GRACE_BLOCKS: u64 = 34_560;
const COMMIT_MIN_AGE: u64 = 8;
const COMMIT_MAX_AGE: u64 = 1_152;
const L1_ADDRESS_LEN: usize = 1_233;
const RECORD_KIND_L1_ADDRESS: u8 = 0x01;

const RULES: NameRules = NameRules {
    term: NAME_TERM_BLOCKS,
    grace: NAME_GRACE_BLOCKS,
    commit_min_age: COMMIT_MIN_AGE,
    commit_max_age: COMMIT_MAX_AGE,
};

fn page(blocks: Vec<BlockNames>, from: u64, to: u64) -> NamesPage {
    NamesPage { from, to, blocks }
}

fn reveal_of(name: &[u8], fill: u8) -> NameOp {
    NameOp::Reveal {
        record: NameRecord {
            kind: RECORD_KIND_L1_ADDRESS,
            name: name.to_vec(),
            address: vec![fill; L1_ADDRESS_LEN],
        },
        salt: [7; 32],
    }
}

fn reveal_named(name: &[u8]) -> NameOp {
    reveal_of(name, 0xAB)
}

fn entries(r: &WalletRegistry) -> Vec<(String, u8, u64, u64, Vec<u8>)> {
    r.names
        .entries
        .iter()
        .map(|(n, e)| (n.clone(), e.kind, e.registered, e.expiry, e.address.clone()))
        .collect()
}

#[test]
fn replay_resolve_and_the_grace_flag() {
    let mut reg = WalletRegistry::empty();
    reg.apply_page(
        &page(vec![BlockNames { height: 9_100, ops: vec![reveal_named(b"alice")] }], 0, 10_000),
        &RULES,
    );
    let expiry = 9_100 + NAME_TERM_BLOCKS;
    assert!(
        matches!(reg.resolve("alice.qmb", 10_000, &RULES), Resolution::Active(e) if e.expiry == expiry)
    );
    assert!(matches!(
        reg.resolve("alice", expiry + 1, &RULES),
        Resolution::Expiring { reopens_at, .. } if reopens_at == expiry + NAME_GRACE_BLOCKS
    ));
    assert!(matches!(
        reg.resolve("alice", expiry + NAME_GRACE_BLOCKS, &RULES),
        Resolution::Unknown
    ));
    assert!(matches!(reg.resolve("bob", 10_000, &RULES), Resolution::Unknown));

    reg.apply_page(
        &page(
            vec![BlockNames {
                height: 9_200,
                ops: vec![NameOp::Renew { name: b"alice".to_vec() }],
            }],
            0,
            10_000,
        ),
        &RULES,
    );
    assert!(matches!(
        reg.resolve("alice", expiry + 10, &RULES),
        Resolution::Active(e) if e.expiry == expiry + NAME_TERM_BLOCKS
    ));
}

#[test]
fn an_op_that_names_nothing_changes_nothing() {
    let mut reg = WalletRegistry::empty();
    let ops = vec![
        NameOp::Commit { commit: [1; 32] },
        NameOp::Renew { name: b"nobody".to_vec() },
        reveal_named(&[0xFF, 0xFE]),
    ];
    reg.apply_page(&page(vec![BlockNames { height: 3, ops }], 0, 3), &RULES);
    assert!(reg.is_empty());
    assert_eq!(reg.synced_to, 3);
}

#[test]
fn sync_pages_with_the_progress_guard() {
    let mut reg = WalletRegistry::empty();
    assert_eq!(reg.want_names(3), Some((1, 3)));
    reg.sync_names(
        3,
        &page(
            vec![
                BlockNames { height: 1, ops: vec![] },
                BlockNames { height: 2, ops: vec![reveal_named(b"alice")] },
            ],
            1,
            3,
        ),
        &RULES,
    )
    .unwrap();
    assert_eq!(reg.want_names(3), Some((3, 3)));
    reg.sync_names(3, &page(vec![BlockNames { height: 3, ops: vec![] }], 3, 3), &RULES).unwrap();
    assert_eq!(reg.want_names(3), None, "sync must stop at tip");
    assert_eq!(reg.synced_to, 3);
    assert_eq!(reg.len(), 1);

    let mut stuck = WalletRegistry::empty();
    stuck.synced_to = 5;
    let err = stuck
        .sync_names(10, &page(vec![BlockNames { height: 2, ops: vec![] }], 6, 10), &RULES)
        .unwrap_err();
    assert!(err.contains("no progress"), "{err}");
    assert!(err.starts_with("/v1/names?from=6&to=10"), "{err}");

    let mut wrong = WalletRegistry::empty();
    wrong.synced_to = 5;
    let err = wrong.sync_names(10, &page(vec![], 0, 3), &RULES).unwrap_err();
    assert!(err.contains("misattributed"), "{err}");
    assert_eq!(wrong.synced_to, 5, "a refused page changes nothing");
    let err = wrong.sync_names(10, &page(vec![], 6, 10), &RULES).unwrap_err();
    assert_eq!(
        err,
        "/v1/names?from=6&to=10: page holds no blocks — no progress; refusing to read a stuck server as complete"
    );
    assert_eq!(wrong.synced_to, 5, "an empty page is no progress");
}

#[test]
fn registry_cache_round_trips_and_rejects_unknown_headers() {
    assert!(WalletRegistry::load(None).unwrap().is_none());
    let mut reg = WalletRegistry::empty();
    reg.apply_page(
        &page(
            vec![BlockNames { height: 9_100, ops: vec![reveal_named(b"bob"), reveal_named(b"alice")] }],
            0,
            9_100,
        ),
        &RULES,
    );
    let text = reg.save();
    assert!(text.starts_with(&format!("{REGISTRY_HEADER}\nsynced_to 9100\nalice 1 9100 ")));
    let back = WalletRegistry::load(Some(&text)).unwrap().unwrap();
    assert_eq!(entries(&back), entries(&reg));
    assert_eq!(back.synced_to, 9_100);

    assert!(WalletRegistry::load(Some("something else\n")).is_err(), "unknown header refuses");
    let bad = |tail: &str| {
        WalletRegistry::load(Some(&format!("{REGISTRY_HEADER}\n{tail}"))).unwrap_err()
    };
    assert_eq!(bad(""), "names-registry.v1: missing synced_to");
    assert_eq!(bad("synced_to x\n"), "names-registry.v1: missing synced_to");
    assert_eq!(bad("synced_to 1\na 1 2 3\n"), "names-registry.v1: record 0: wrong field count");
    assert_eq!(bad("synced_to 1\na 1 2 3 ab cd\n"), "names-registry.v1: record 0: wrong field count");
    assert_eq!(bad("synced_to 1\na 256 2 3 ab\n"), "names-registry.v1: record 0: bad kind");
    assert_eq!(bad("synced_to 1\na 1 2 z ab\n"), "names-registry.v1: record 0: bad number");
    assert_eq!(
        bad("synced_to 1\na 1 2 3 ab\nb 1 2 3 abc\n"),
        "names-registry.v1: record 1: bad address hex"
    );
}

fn alice(fill: u8, salt: [u8; 32]) -> RegisterState {
    registration("alice", RECORD_KIND_L1_ADDRESS, vec![fill; L1_ADDRESS_LEN], salt)
}

#[test]
fn register_state_machine_and_the_dead_window() {
    let mut st = alice(0xAB, [7u8; 32]);
    assert!(!st.commit_attempted);
    assert_eq!(RegisterState::load(Some(&st.save()), &RULES).unwrap(), Some(st.clone()));

    assert_eq!(st.step(9_000, &RULES), RegisterStep::NeedsCommit);
    st.commit_attempted = true;
    st.committed_at = Some(9_000);
    assert_eq!(
        st.step(9_000 + COMMIT_MIN_AGE - 1, &RULES),
        RegisterStep::WaitForWindow { at: 9_000 + COMMIT_MIN_AGE }
    );
    assert_eq!(
        st.step(9_000 + COMMIT_MIN_AGE, &RULES),
        RegisterStep::RevealNow { closes: 9_000 + COMMIT_MAX_AGE }
    );
    assert_eq!(
        st.step(9_000 + COMMIT_MAX_AGE, &RULES),
        RegisterStep::RevealNow { closes: 9_000 + COMMIT_MAX_AGE }
    );
    assert_eq!(st.step(9_000 + COMMIT_MAX_AGE + 1, &RULES), RegisterStep::WindowClosed);

    assert_eq!(st.commit_op([3; 32]), NameOp::Commit { commit: [3; 32] });
    assert_eq!(st.reveal_op(), NameOp::Reveal { record: st.record.clone(), salt: st.salt });

    st.reveal_tx = Some(vec![0x51, 0x36, 0x32]);
    assert_eq!(RegisterState::load(Some(&st.save()), &RULES).unwrap(), Some(st.clone()));
    let revealed_at = 9_000 + COMMIT_MIN_AGE;
    let mut registry = WalletRegistry::empty();
    registry.apply_page(
        &page(
            vec![BlockNames { height: revealed_at, ops: vec![reveal_named(b"alice")] }],
            revealed_at,
            revealed_at,
        ),
        &RULES,
    );
    assert_eq!(registry.observed_reveal_height(&st, &RULES), Some(revealed_at));
    let other = alice(0xAC, [7u8; 32]);
    assert_eq!(registry.observed_reveal_height(&other, &RULES), None);
    st.revealed_at = Some(revealed_at);
    assert_eq!(RegisterState::load(Some(&st.save()), &RULES).unwrap(), Some(st.clone()));
    assert_eq!(
        st.step(9_000 + COMMIT_MAX_AGE + 1, &RULES),
        RegisterStep::RevealConfirmed { at: revealed_at },
    );
    assert_eq!(RegisterState::load(None, &RULES).unwrap(), None);
}

fn wallet() -> WalletDir {
    WalletDir::create("/w", "/w/wallet.seed", false, Seed { version: 1, entropy: [0x51; 32] })
        .unwrap()
}

#[test]
fn native_registration_api_allocates_once_and_legacy_state_fails_closed() {
    let mut wallet = wallet();
    let (name, index, salt) =
        match prepare_registration(&mut wallet, "alice.qmb", true, None, &RULES).unwrap() {
            Prepared::Fresh { name, index, salt } => (name, index, salt),
            Prepared::Resumed(_) => panic!("nothing is in flight"),
        };
    assert_eq!((name.as_str(), index), ("alice", 1));
    let first = registration(&name, RECORD_KIND_L1_ADDRESS, vec![index as u8; 40], salt);
    let kept = first.save();
    match prepare_registration(&mut wallet, "alice", true, Some(&kept), &RULES).unwrap() {
        Prepared::Resumed(second) => {
            assert_eq!(first, second, "reopening the same flow must not allocate again")
        }
        Prepared::Fresh { .. } => panic!("the registration is in flight"),
    }
    assert_eq!(wallet.allocated, vec![0, 1]);
    assert!(prepare_registration(&mut wallet, "UPPER", false, Some(&kept), &RULES).is_err());
    assert_eq!(
        prepare_registration(&mut wallet, "bob", true, Some(&kept), &RULES).unwrap_err(),
        "a registration for alice is already in flight"
    );

    let hex = |b: &[u8]| b.iter().map(|x| format!("{x:02x}")).collect::<String>();
    let v2 = format!(
        "{REG_HEADER_V2}\nalice {} {} 9000 attempted {}\n",
        RECORD_KIND_L1_ADDRESS,
        hex(&first.salt),
        hex(&first.record.address),
    );
    let recovered = RegisterState::load(Some(&v2), &RULES).unwrap().unwrap();
    assert!(recovered.commit_attempted);
    assert_eq!(recovered.committed_at, Some(9_000));
    assert_eq!(recovered.reveal_tx, None);
    assert_eq!(recovered.revealed_at, None);

    let legacy = format!(
        "{REG_HEADER_V1}\nalice {} {} none {}\n",
        RECORD_KIND_L1_ADDRESS,
        hex(&first.salt),
        hex(&first.record.address),
    );
    let recovered = RegisterState::load(Some(&legacy), &RULES).unwrap().unwrap();
    assert!(recovered.commit_attempted, "v1 cannot prove its commit was never posted");
    let err = RegisterState::load(Some("qumbra-wallet names-reg v99\n"), &RULES).unwrap_err();
    assert!(err.contains("unknown header"), "{err}");
}

#[test]
fn a_registration_that_does_not_agree_with_itself_is_refused() {
    let salt = "07".repeat(32);
    let load = |line: String| {
        RegisterState::load(Some(&format!("{REG_HEADER}\n{line}\n")), &RULES).unwrap_err()
    };
    let cases = [
        (format!("alice 1 {salt}"), "malformed record"),
        (format!("alice 1 {salt} none maybe none ab none"), "bad commit-attempt state"),
        (format!("alice 1 {salt} none prepared"), "missing reveal height"),
        (format!("alice 1 {salt} none prepared none"), "missing address"),
        (format!("alice 1 {salt} none prepared none ab"), "missing reveal transaction"),
        (format!("alice 1 {salt} none prepared none ab none x"), "unexpected trailing fields"),
        (format!("alice 1 {salt} x prepared none ab none"), "bad commit height"),
        (format!("alice 1 {salt} 5 attempted x ab 01"), "bad reveal height"),
        (format!("alice 1 {salt} 5 attempted none ab 0"), "bad reveal transaction"),
        (
            format!("alice 1 {salt} none attempted 9 ab 01"),
            "a confirmed reveal is missing its commit height",
        ),
        (
            format!("alice 1 {salt} 5 prepared none ab 01"),
            "a retained reveal transaction is missing its attempted commit",
        ),
        (
            format!("alice 1 {salt} 5 attempted 13 ab none"),
            "a confirmed reveal is missing its retained transaction",
        ),
        (
            format!("alice 1 {salt} {} attempted 13 ab 01", u64::MAX),
            "commit height overflows its reveal window",
        ),
        (
            format!("alice 1 {salt} 5 attempted 6 ab 01"),
            "reveal height is outside its commit window",
        ),
        ("alice 1 07 none prepared none ab none".to_string(), "bad salt"),
        (format!("alice 300 {salt} none prepared none ab none"), "bad kind"),
        (format!("alice 1 {salt} none prepared none abc none"), "bad address"),
    ];
    for (line, why) in cases {
        assert_eq!(load(line), format!("names-reg.v1: {why}"));
    }
}

#[test]
fn only_a_valid_name_is_renewed() {
    assert_eq!(renewal_op("alice.qmb", true), Ok(NameOp::Renew { name: b"alice".to_vec() }));
    let err = renewal_op("Al\"ice", false).unwrap_err();
    assert_eq!(
        err,
        "\"Al\\\"ice\" fails the v1 name grammar (a-z 0-9, interior hyphens, 1-63 bytes)"
    );
    assert_eq!(bare_name("a.qmb.qmb"), "a.qmb");
}

#[test]
fn pins_first_use_match_and_the_rebind_alarm() {
    let mut pins = Pins::load(None).unwrap();
    let addr_a = vec![0xAB; L1_ADDRESS_LEN];
    let addr_b = vec![0xCD; L1_ADDRESS_LEN];

    let PinVerdict::FirstUse { fingerprint } = pins.check("alice", &addr_a, None) else {
        panic!("expected first use");
    };
    assert_eq!(fingerprint, format!("<undecodable:1233B:{}>", "ab".repeat(1233)));
    pins.pin("alice", &fingerprint);
    assert_eq!(pins.check("alice", &addr_a, None), PinVerdict::Match);

    match pins.check("alice.qmb", &addr_b, None) {
        PinVerdict::Rebind { pinned, resolved } => {
            assert_eq!(pinned, fingerprint);
            assert_ne!(pinned, resolved);
        }
        other => panic!("a rebind must alarm, got {other:?}"),
    }
    let mut last = addr_a.clone();
    last[L1_ADDRESS_LEN - 1] = 0;
    assert!(
        matches!(pins.check("alice", &last, None), PinVerdict::Rebind { .. }),
        "one byte at the end is enough"
    );
    assert_eq!(
        pins.check("alice", &addr_a, Some("qs1a")),
        PinVerdict::Rebind { pinned: fingerprint.clone(), resolved: "qs1a".to_string() }
    );

    let back = Pins::load(Some(&pins.save())).unwrap();
    assert_eq!(back.pins, pins.pins);
    assert_eq!(back.get("alice.qmb"), Some(fingerprint.as_str()));
    assert_eq!(back.get("bob"), None);
    assert!(Pins::load(Some("x\n")).unwrap_err().contains("refusing to guess"));
    assert_eq!(
        Pins::load(Some("qumbra-wallet names-pins v1\nlonely\n")).unwrap_err(),
        "names-pins.v1: malformed record"
    );
    assert_eq!(
        Pins::load(Some("qumbra-wallet names-pins v1\na qs1a more\n")).unwrap_err(),
        "names-pins.v1: malformed record"
    );
}

const COMMIT: [u8; 32] = [0xC0; 32];
const FEE: u64 = 77;

#[test]
fn unconfirmed_reveal_is_retained_and_reposted_byte_identically() {
    let mut state = alice(0xA5, [0x62; 32]);
    state.commit_attempted = true;
    state.committed_at = Some(9_000);
    let mut kept = state.save();
    let scan_to = 9_000 + COMMIT_MIN_AGE;
    let mut submitted: Vec<Vec<u8>> = Vec::new();
    let mut builds = 0u8;
    for _ in 0..2 {
        let mut st = match flight("alice", Some(&kept), &RULES).unwrap() {
            Flight::Resume(st) => st,
            Flight::Prepare => panic!("the registration is in flight"),
        };
        let mut mv = names_register(&mut st, None, scan_to, false, COMMIT, FEE, &RULES);
        if matches!(mv.action, RegisterAction::Observe) {
            mv = names_register(&mut st, Some(None), scan_to, false, COMMIT, FEE, &RULES);
        }
        assert!(mv.save.is_none());
        match mv.action {
            RegisterAction::Reveal { op, notice, done, .. } => {
                assert_eq!(op, st.reveal_op());
                assert!(notice.contains("name fee 77 bessel, BURNED"), "{notice}");
                assert!(done.contains("not yet confirmed"), "{done}");
                let wire = vec![0x54, builds];
                builds += 1;
                kept = preserve(&mut st, &wire);
                submitted.push(wire);
            }
            RegisterAction::Repost { wire, notice, .. } => {
                assert!(notice.contains("byte-identically"), "{notice}");
                submitted.push(wire);
            }
            other => panic!("{other:?}"),
        }
    }
    let retained = RegisterState::load(Some(&kept), &RULES).unwrap().expect("state must remain");
    assert_eq!(retained.salt, state.salt);
    assert_eq!(retained.record, state.record);
    assert!(retained.reveal_tx.is_some(), "the exact first wire is durable");
    assert_eq!(submitted.len(), 2, "the unconfirmed reveal is posted again");
    assert_eq!(builds, 1, "retry must not rebuild a randomized proof");
    assert_eq!(submitted[0], submitted[1], "retry must submit the exact first transaction");
}

#[test]
fn an_observed_reveal_clears_without_reposting() {
    let mut state = alice(0xA6, [0x63; 32]);
    state.commit_attempted = true;
    state.committed_at = Some(10_000);
    state.reveal_tx = Some(vec![0x51, 0x36, 0x32]);
    let confirmed = 10_000 + COMMIT_MIN_AGE;
    let mut st = RegisterState::load(Some(&state.save()), &RULES).unwrap().unwrap();
    let mv = names_register(&mut st, None, confirmed, false, COMMIT, FEE, &RULES);
    assert!(matches!(mv.action, RegisterAction::Observe));
    let mv = names_register(&mut st, Some(Some(confirmed)), confirmed, false, COMMIT, FEE, &RULES);
    match mv.action {
        RegisterAction::Finish { done } => {
            assert!(done.contains(&format!("reveal confirmed at height {confirmed}")), "{done}")
        }
        other => panic!("a confirmed reveal must not build or re-post: {other:?}"),
    }
    let saved = RegisterState::load(mv.save.as_deref(), &RULES).unwrap().unwrap();
    assert_eq!(saved.revealed_at, Some(confirmed), "kept before the state is dropped");
}

#[test]
fn window_closing_still_clears_and_refuses_salt_reuse() {
    let mut state = alice(0xA7, [0x64; 32]);
    state.commit_attempted = true;
    state.committed_at = Some(11_000);
    state.reveal_tx = Some(vec![0x51, 0x36, 0x33]);
    let mut st = RegisterState::load(Some(&state.save()), &RULES).unwrap().unwrap();
    let late = 11_000 + COMMIT_MAX_AGE + 1;
    match names_register(&mut st, Some(None), late, false, COMMIT, FEE, &RULES).action {
        RegisterAction::Close { why } => {
            assert!(why.contains("salt will not be reused"), "{why}")
        }
        other => panic!("a closed window must not build or re-post: {other:?}"),
    }
}

#[test]
fn a_commit_is_saved_as_attempted_before_it_goes_out() {
    let mut st = alice(1, [1; 32]);
    let mv = names_register(&mut st, None, 5, false, COMMIT, FEE, &RULES);
    let saved = RegisterState::load(mv.save.as_deref(), &RULES).unwrap().unwrap();
    assert!(saved.commit_attempted);
    match mv.action {
        RegisterAction::Commit { op, label, .. } => {
            assert_eq!(op, NameOp::Commit { commit: COMMIT });
            assert_eq!(label, "commit for alice (relay fee only)");
        }
        other => panic!("{other:?}"),
    }
    st.committed_at = Some(100);
    match names_register(&mut st, None, 101, true, COMMIT, FEE, &RULES).action {
        RegisterAction::Wait { why } => assert!(why.contains("opens at height 108"), "{why}"),
        other => panic!("{other:?}"),
    }
    match names_register(&mut st, None, 108, true, COMMIT, FEE, &RULES).action {
        RegisterAction::Reveal { done, .. } => assert!(done.contains("NOT submitted"), "{done}"),
        other => panic!("{other:?}"),
    }
}

#[test]
fn a_commit_height_is_recorded_for_its_own_name() {
    let kept = alice(1, [1; 32]).save();
    let st = record_commit("alice.qmb", Some(&kept), "9000", &RULES).unwrap();
    assert_eq!(st.committed_at, Some(9_000));
    assert_eq!(
        record_commit("alice", None, "9000", &RULES).unwrap_err(),
        "no registration in flight"
    );
    assert_eq!(
        record_commit("bob", Some(&kept), "9000", &RULES).unwrap_err(),
        "in-flight registration is for alice, not bob"
    );
    assert_eq!(
        record_commit("alice", Some(&kept), "9k", &RULES).unwrap_err(),
        "9k".parse::<u64>().unwrap_err().to_string()
    );
    assert!(recorded_text("alice.qmb", "9000").starts_with("recorded commit height 9000; "));
    assert!(matches!(flight("alice", None, &RULES), Ok(Flight::Prepare)));
    assert!(flight("bob", Some(&kept), &RULES).is_err());
}

#[test]
fn only_an_answer_in_flight_ends_a_repost_well() {
    let answer = |body: &str| SubmitAnswer { status: 200, body: body.to_string() };
    assert!(repost_outcome(&answer("accepted 01")).is_ok());
    assert!(repost_outcome(&answer("duplicate 01")).is_ok());
    assert_eq!(repost_outcome(&answer("refused: x")), Err("refused: x".to_string()));
}
