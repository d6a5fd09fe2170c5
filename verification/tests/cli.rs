use qumbra_wallet::args::{
    address_args, contact_verb, freeze_verb, history_args, issue_args, issuer_key_args,
    issuer_verb, miner_args, names_pin_args, names_resolve_args, names_sync_args, names_verb,
    register_args, register_height, scan_args, self_send_args, send_annulet_args, send_args,
    ContactVerb, FreezeVerb, IssuerVerb, NamesVerb, Picked,
};
use qumbra_wallet::build_rev_line;
use qumbra_wallet::cli::{
    bessel_to_qmb, dir_of, dispatch, flag, has_flag, net_line, resolve_net, resolve_send_amount,
    Command, GenesisForm, NetSource,
};
use qumbra_wallet::coinbase::{BlockCoinbase, MinedChain};
use qumbra_wallet::ledger_run::{log_notes, name_burns};
use qumbra_wallet::names::{
    BlockNames, NameEntry, NameOp, NameRecord, NameRules, NamesPage, PinVerdict, Pins, Resolution,
    WalletRegistry,
};
use qumbra_wallet::net::{SubmitAnswer, SubmitClass};
use qumbra_wallet::payee::{
    admit_payee, resolve_payee, send_end, step_lines, target, uri_lines, Line, Target,
    UNDECODABLE_ENTRY,
};
use qumbra_wallet::sends::{SendLog, SendLogError, SENDS_FILE};
use qumbra_wallet::shown::{
    address_head, admit_backup, annulet_net_line, annulet_sent_line, freeze_line, is_allocated,
    issued_line, resolved_text, synced_line, Shown,
};
use qumbra_wallet::spend::{SendError, SendOutcome, SendStep};

fn words(line: &str) -> Vec<String> {
    line.split_whitespace().map(str::to_string).collect()
}

#[test]
fn the_build_provenance_line_is_never_empty() {
    let line = build_rev_line(None);
    assert!(!line.is_empty());
    assert!(line.contains("unstamped"));
    assert_eq!(line, "unstamped — not built by the release lane");
    assert_eq!(build_rev_line(Some("1a2b3c")), "1a2b3c");
    assert_eq!(build_rev_line(Some("")), line, "an empty stamp is none");
}

#[test]
fn net_resolution_precedence() {
    assert_eq!(
        resolve_net(Some("t1"), Some("t2")).unwrap(),
        (GenesisForm::V4, NetSource::Flag)
    );
    assert_eq!(
        resolve_net(Some("t2"), Some("t1")).unwrap(),
        (GenesisForm::V5, NetSource::Flag)
    );
    assert_eq!(resolve_net(None, Some("t2")).unwrap(), (GenesisForm::V5, NetSource::Stamp));
    assert_eq!(resolve_net(None, Some("t1")).unwrap(), (GenesisForm::V4, NetSource::Stamp));
    assert_eq!(resolve_net(None, None).unwrap(), (GenesisForm::V4, NetSource::Fallback));
    assert!(net_line(GenesisForm::V5, NetSource::Flag).starts_with("net: t2 ("));
}

#[test]
fn net_annulet_outside_scan_is_refused_by_name() {
    let err = resolve_net(Some("annulet"), None).unwrap_err();
    assert!(err.contains("accepted by `scan` and `send` only"), "{err}");
}

#[test]
fn an_unknown_net_refuses_and_says_whose_fault_it_is() {
    let err = resolve_net(Some("t3"), None).unwrap_err();
    assert!(err.contains("--net t3"), "{err}");
    assert!(err.contains("t1, t2"), "{err}");
    let err = resolve_net(None, Some("t3")).unwrap_err();
    assert!(err.contains("release-lane defect"), "{err}");
    assert!(err.contains("not something you did"), "{err}");
}

#[test]
fn every_source_describes_itself_distinctly() {
    let all = [NetSource::Flag, NetSource::Stamp, NetSource::Fallback];
    for (i, a) in all.iter().enumerate() {
        assert!(!a.describe().is_empty());
        for b in &all[i + 1..] {
            assert_ne!(a.describe(), b.describe());
        }
    }
}

#[test]
fn send_amount_resolution() {
    assert_eq!(resolve_send_amount(Some(150_000_000), None), Ok(150_000_000));
    assert_eq!(resolve_send_amount(None, Some(42)), Ok(42));
    assert_eq!(resolve_send_amount(Some(42), Some(42)), Ok(42));
    assert!(resolve_send_amount(None, None).is_err());
    let err = resolve_send_amount(Some(150_000_000), Some(42)).unwrap_err();
    assert!(err.contains("150000000") && err.contains("42"), "{err}");
    assert!(err.contains("1.5") && err.contains("0.00000042"), "both in QMB: {err}");
}

#[test]
fn amounts_are_written_without_trailing_zeros() {
    assert_eq!(bessel_to_qmb(0), "0");
    assert_eq!(bessel_to_qmb(1), "0.00000001");
    assert_eq!(bessel_to_qmb(u64::MAX), "184467440737.09551615");
    assert_eq!(bessel_to_qmb(1_000_000_000), "10");
}

#[test]
fn a_command_is_known_by_its_first_word() {
    assert_eq!(dispatch(&[]), Ok(Command::Help));
    assert_eq!(dispatch(&words("miner-rkm --dir x")), Ok(Command::MinerRkm));
    assert_eq!(dispatch(&words("send --to x")), Ok(Command::Send));
    assert_eq!(dispatch(&words("sned")), Err("unknown command `sned`".to_string()));
}

#[test]
fn a_flag_takes_the_word_behind_it() {
    let a = words("--dir d --qr --index 3 --dir e");
    assert_eq!(flag(&a, "--dir"), Some("d"));
    assert_eq!(flag(&a, "--index"), Some("3"));
    assert_eq!(flag(&a, "--url"), None);
    assert_eq!(flag(&words("--dir"), "--dir"), None);
    assert!(has_flag(&a, "--qr"));
    assert!(!has_flag(&a, "--uri"));
    assert_eq!(dir_of(&a), Ok("d".to_string()));
    assert_eq!(dir_of(&[]), Err("--dir DIR is required".to_string()));
}

#[test]
fn the_send_flags_are_read_or_refused_by_name() {
    let a = send_args(&words("--dir d --url u --scan-to 9 --to x --amount 5 --no-submit")).unwrap();
    assert_eq!((a.dir.as_str(), a.url.as_str(), a.node_url.as_str()), ("d", "u", "u"));
    assert_eq!((a.scan_to, a.amount, a.no_submit), (9, Some(5), true));
    assert_eq!((a.to.as_deref(), a.to_contact, a.out), (Some("x"), None, None));
    assert_eq!(send_args(&words("--url u")).unwrap_err(), "--dir DIR is required");
    assert_eq!(
        send_args(&words("--dir d")).unwrap_err(),
        "send requires --url (compact/scan endpoint)"
    );
    assert_eq!(
        send_args(&words("--dir d --url u")).unwrap_err(),
        "send requires --scan-to HEIGHT"
    );
    assert_eq!(
        send_args(&words("--dir d --url u --scan-to x9")).unwrap_err(),
        "x9".parse::<u64>().unwrap_err().to_string()
    );
    let n = send_args(&words("--dir d --url u --scan-to 9 --node n")).unwrap();
    assert_eq!(n.node_url, "n");

    let line = "--dir d --url u --scan-to 9 --asset 65535 --amount 5 --to x";
    assert_eq!(send_annulet_args(&words(line)).unwrap().asset, 65_535);
    let line = "--dir d --url u --scan-to 9 --asset 65536 --amount 5 --to x";
    assert_eq!(
        send_annulet_args(&words(line)).unwrap_err(),
        "--asset must be a registry index below 65536"
    );
}

#[test]
fn the_other_commands_read_their_flags() {
    let s = scan_args(&words("--dir d --url u --to 8")).unwrap();
    assert_eq!((s.from, s.to, s.net), (0, 8, None));
    let h = history_args(&words("--dir d --url u --to 8 --from 2")).unwrap();
    assert_eq!((h.from, h.to), (2, 8));
    assert!(history_args(&words("--dir d --url u")).unwrap_err().contains("--to HEIGHT"));
    assert_eq!(names_sync_args(&words("sync --dir d --url u --to 4")).unwrap().to, 4);
    assert_eq!(names_resolve_args(&words("resolve a.qmb --dir d --tip 7")).unwrap().tip, 7);
    assert_eq!(names_resolve_args(&words("resolve")).unwrap_err(), "names resolve NAME --tip H");
    let p = names_pin_args(&words("pin a.qmb qs1x --dir d")).unwrap();
    assert_eq!((p.name.as_str(), p.fingerprint.as_str()), ("a.qmb", "qs1x"));
    let r = register_args(&words("a.qmb --dir d --committed-at 12")).unwrap();
    assert_eq!((r.name.as_str(), r.committed_at.as_deref()), ("a.qmb", Some("12")));
    assert!(!r.no_submit);
    assert_eq!(register_height(&words("a.qmb --scan-to 30")).unwrap().scan_to, 30);
    assert_eq!(self_send_args(&words("--dir d --url u --scan-to 3")).unwrap().node_url, "u");
    let i = issue_args(&words("--dir d --url u --scan-to 3 --amount 10")).unwrap();
    assert_eq!((i.amount, i.to), (10, None));
    assert_eq!(issuer_key_args(&words("--dir d --asset 4")).unwrap().asset, 4);
    let m = miner_args(&words("--dir d")).unwrap();
    assert_eq!(m.index, 0);
}

#[test]
fn the_verbs_are_told_apart() {
    assert_eq!(names_verb(&words("renew a")), Ok(NamesVerb::Renew));
    assert!(names_verb(&words("rename a")).is_err());
    assert_eq!(issuer_verb(&words("redeem")), Ok(IssuerVerb::Redeem));
    assert!(issuer_verb(&[]).is_err());
    assert_eq!(freeze_verb(&words("freeze root")), Ok(FreezeVerb::Root));
    assert_eq!(
        freeze_verb(&words("freeze add --address q1")),
        Ok(FreezeVerb::Add { address: "q1".to_string() })
    );
    assert!(freeze_verb(&words("freeze remove")).is_err());
    assert_eq!(
        contact_verb(&words("remove bob --dir d")),
        Ok(ContactVerb::Remove { name: "bob".to_string() })
    );
    assert_eq!(contact_verb(&words("list --dir d")), Ok(ContactVerb::List));
    let a = address_args(&words("--dir d --index 3 --qr")).unwrap();
    assert!(a.uri_mode());
    assert_eq!(a.picked(), Ok(Picked::Index(3)));
    assert_eq!(address_args(&words("--dir d --new")).unwrap().picked(), Ok(Picked::Fresh));
    let plain = address_args(&words("--dir d")).unwrap();
    assert!(!plain.uri_mode());
    assert_eq!(plain.picked(), Ok(Picked::All));
    assert!(address_args(&words("--dir d --index q")).unwrap().picked().is_err());
}

#[test]
fn a_payee_is_one_of_four_things() {
    assert_eq!(target(Some("a.qmb"), None), Ok(Target::Name("a.qmb".to_string())));
    assert_eq!(target(Some("qumbra:x"), None), Ok(Target::Uri("qumbra:x".to_string())));
    assert_eq!(target(Some("qmb1x"), None), Ok(Target::Address("qmb1x".to_string())));
    assert_eq!(target(None, Some("bob")), Ok(Target::Contact("bob".to_string())));
    assert!(target(None, None).is_err());
    assert!(target(Some("x"), Some("bob")).is_err());
}

const RULES: NameRules =
    NameRules { term: 100, grace: 20, commit_min_age: 8, commit_max_age: 1_152 };

fn registry() -> WalletRegistry {
    let record = NameRecord { kind: 1, name: b"alice".to_vec(), address: vec![7; 40] };
    let block = BlockNames { height: 50, ops: vec![NameOp::Reveal { record, salt: [0; 32] }] };
    let mut r = WalletRegistry::empty();
    r.apply_page(&NamesPage { from: 0, to: 60, blocks: vec![block] }, &RULES);
    r
}

#[test]
fn only_a_pinned_name_is_paid() {
    let reg = registry();
    let (entry, note) = resolve_payee("alice.qmb", 60, Some(&reg), &RULES).unwrap();
    assert_eq!((entry.expiry, note), (150, None));
    let (_, note) = resolve_payee("alice.qmb", 155, Some(&reg), &RULES).unwrap();
    assert!(note.unwrap().contains("re-registrable at height 170"));
    let err = resolve_payee("bob.qmb", 60, Some(&reg), &RULES).unwrap_err();
    assert!(err.contains("not registered as of height 60"), "{err}");
    assert!(resolve_payee("alice.qmb", 60, None, &RULES).unwrap_err().contains("names sync"));

    let mut pins = Pins::empty();
    assert!(admit_payee("alice.qmb", &entry, &pins, Some("qs1a")).is_err(), "first use");
    pins.pin("alice", "qs1a");
    assert_eq!(
        admit_payee("alice.qmb", &entry, &pins, Some("qs1a")).unwrap(),
        "alice.qmb → qs1a (pinned ✓; registered at 50, expires 150)"
    );
    let err = admit_payee("alice.qmb", &entry, &pins, Some("qs1b")).unwrap_err();
    assert!(err.contains("qs1a") && err.contains("qs1b"), "{err}");
    pins.pin("alice", &format!("<undecodable:40B:{}>", "07".repeat(40)));
    assert_eq!(admit_payee("alice.qmb", &entry, &pins, None).unwrap_err(), UNDECODABLE_ENTRY);
}

#[test]
fn a_send_is_told_step_by_step() {
    let step = SendStep::Selected { spendable: 4, skipped_spent: 2, mined: 1 };
    let lines = step_lines(&step, "0.0");
    assert_eq!(lines.len(), 2);
    assert!(matches!(&lines[0], Line::Aside(s) if s.starts_with("note: 2 already-spent")));
    let built = SendStep::Built { amount: 5, fee: 1, change: 2, used_dummy: true };
    match &step_lines(&built, "3.2")[..] {
        [Line::Result(s)] => assert!(s.contains("3.2"), "{s}"),
        other => panic!("{other:?}"),
    }
    let answered = SendStep::Answered { status: 202, body: "accepted".to_string() };
    assert_eq!(step_lines(&answered, ""), vec![Line::Result("node [202]: accepted".to_string())]);
    assert!(step_lines(&SendStep::Submitting, "").is_empty());
    let tree = SendStep::Tree {
        held: 10,
        fetched: 3,
        anchor_count: 9,
        anchor_root: "ab".to_string(),
        node_tip: 5,
        finalized: None,
        anchor_behind: 1,
    };
    assert_eq!(step_lines(&tree, "").len(), 2);

    let lines = uri_lines("qs1x", Some("rent"), Some(&[b'h', 0xFF]));
    assert_eq!(lines[1], "URI label (display only, NOT transmitted): rent");
    assert_eq!(lines[2], "URI memo (display only, NOT transmitted; 2 bytes): h\u{FFFD}");
}

fn outcome(answer: Option<SubmitAnswer>) -> SendOutcome {
    SendOutcome {
        wire_bytes: vec![1, 2],
        answer,
        fee: 1,
        change_value: 0,
        used_dummy: false,
    }
}

#[test]
fn the_bytes_are_kept_whatever_came_of_the_send() {
    let end = send_end(Ok(outcome(None)), None);
    assert_eq!(end.keep, Some(vec![1, 2]));
    assert!(end.failure.is_none());
    assert!(!end.lines.is_empty(), "an unsubmitted proof is spoken of");
    let lost = SendError::Incomplete { why: "no answer.".to_string(), wire_bytes: vec![9] };
    let end = send_end(Err(lost), Some("tx.bin"));
    assert_eq!(end.keep, Some(vec![9]));
    assert_eq!(end.failure.unwrap(), "no answer. They are saved at tx.bin.");
    let refused = SendError::Answered {
        class: SubmitClass::Refused,
        status: 422,
        body: "stale".to_string(),
        wire_bytes: vec![8],
    };
    let end = send_end(Err(refused), None);
    assert_eq!(end.keep, Some(vec![8]));
    assert_eq!(end.failure.unwrap(), "the node refused this transaction: stale");
    let unknown = SendError::Answered {
        class: SubmitClass::Unknown,
        status: 299,
        body: "deferred: epoch".to_string(),
        wire_bytes: vec![7],
    };
    let end = send_end(Err(unknown), None);
    assert_eq!(end.keep, Some(vec![7]));
    let why = end.failure.unwrap();
    assert!(why.contains("deferred: epoch") && !why.contains("refused"), "{why}");
    let end = send_end(Err(SendError::Refused("no notes".to_string())), None);
    assert_eq!((end.keep, end.failure.as_deref()), (None, Some("no notes")));
}

#[test]
fn what_is_shown_names_its_subject() {
    let reg = registry();
    assert_eq!(synced_line(3, &reg), "names: synced 3 → 50; 1 registration(s) known");
    let e = NameEntry { kind: 1, address: vec![7], registered: 50, expiry: 150 };
    let shown = Shown { full: "qmb1full".to_string(), short: "qs1a".to_string() };
    let text =
        resolved_text("alice", 60, &Resolution::Active(e.clone()), Some(&shown), &PinVerdict::Match)
            .unwrap();
    assert!(text.starts_with("alice → qmb1full\n  fingerprint qs1a  ["), "{text}");
    assert!(text.ends_with("registered 50  expires 150"), "{text}");
    assert_eq!(
        resolved_text("bob", 60, &Resolution::Unknown, None, &PinVerdict::Match).unwrap(),
        "bob: not registered (as of height 60)"
    );
    assert_eq!(
        resolved_text("alice", 60, &Resolution::Active(e), None, &PinVerdict::Match).unwrap_err(),
        "entry does not decode"
    );
    assert!(is_allocated(&vec![0, 4], 4));
    assert_eq!(address_head(&vec![0, 4], 4), "address [4]:");
    assert!(address_head(&vec![0], 4).contains("NOT in this wallet's allocated set"));
    assert!(freeze_line(2, &[1, 0, 0, 0]).starts_with("freeze list: 2 key(s); root "));
    assert_eq!(issued_line(true, 5, 3), "minted 5 of asset 3 (shape P, vPublic +5)");
    assert_eq!(issued_line(false, 5, 3), "redeemed 5 of asset 3 (shape P, vPublic -5)");
    assert_eq!(
        annulet_sent_line(5, 0, "S", 2),
        "sent 5 of asset 0 (shape S); change 2 back to this wallet"
    );
    assert!(annulet_net_line(false).contains("unpinned"));
    assert!(admit_backup(true).is_ok());
    assert!(admit_backup(false).unwrap_err().contains("--reveal"));
}

#[test]
fn a_wallet_with_no_send_log_gets_a_note_and_still_gets_a_ledger() {
    let (log, notes) = log_notes(Ok(None));
    assert!(log.is_none());
    assert!(
        notes.iter().any(|n| n.contains(SENDS_FILE)),
        "the absent local record must be NAMED: {notes:?}"
    );
}

#[test]
fn an_absent_file_is_none_and_never_an_error() {
    let (log, notes) = log_notes(Ok(None));
    assert!(log.is_none());
    assert_eq!(notes.len(), 1);
    let (log, notes) = log_notes(Ok(Some(SendLog { records: vec![] })));
    assert!(log.is_some());
    assert!(notes.is_empty());
    let (log, notes) = log_notes(Err(SendLogError::Io("denied".to_string())));
    assert!(log.is_none());
    assert_eq!(notes.len(), 1, "a file that is there is not said to be missing: {notes:?}");
    assert!(notes[0].contains("denied"), "{notes:?}");
    assert!(notes[0].contains("chain-only"), "{notes:?}");
}

#[test]
fn burns_are_the_blocks_that_burn() {
    let block = |height: u64, name_burn: u64| BlockCoinbase {
        height,
        coinbase_rkm: [0; 4],
        coinbase: 1,
        fees: 0,
        name_burn,
        minted: None,
    };
    let chain = MinedChain {
        covered: Some((1, 3)),
        blocks: vec![block(1, 0), block(2, 77), block(3, 5)],
    };
    assert_eq!(name_burns(Some(&chain)), Some(vec![(2, 77), (3, 5)]));
    assert_eq!(name_burns(None), None);
}
