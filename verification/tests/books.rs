use qumbra_wallet::contacts::{
    decode_hex, encode_hex, parse as parse_book, validate_name, AddressForms, ContactBook,
    ContactError, KnownAddress, CONTACTS_HEADER,
};
use qumbra_wallet::sends::{
    append_text, encode_record, hex32, parse as parse_log, parse_hex32, parse_record, SendLog,
    SendLogError, SendRecord, SENDS_FILE, SENDS_HEADER,
};

fn forms(index: u64) -> AddressForms {
    AddressForms { full: format!("qaddr1full{index}"), short: format!("qs1short{index}") }
}

fn known() -> Vec<KnownAddress> {
    (0..3).map(|i| KnownAddress { text: forms(i).full, forms: forms(i) }).collect()
}

#[test]
fn contacts_v1_round_trips_full_addresses_and_is_owner_only() {
    let full = forms(0).full;
    let mut book = ContactBook::empty();
    let added = book.add("Alice Smith", Some(forms(0))).unwrap();
    assert_eq!(added.address, full, "the full receiving address is retained");
    let text = book.encode();
    let loaded = parse_book("contacts.v1", &text, &known()).unwrap();
    assert_eq!(loaded.entries(), &[added]);
    assert_eq!(loaded.resolve("Alice Smith").unwrap().address, full);
    assert_eq!(loaded.resolve("Alice Smith").unwrap().short(), "qs1short0");
    assert!(text.starts_with(&format!("{CONTACTS_HEADER}\n")));
}

#[test]
fn contacts_v1_rejects_unknown_schema_and_invalid_addresses() {
    assert!(matches!(
        parse_book("contacts.v1", "qumbra-wallet contacts v9\n", &known()),
        Err(ContactError::BadHeader { .. })
    ));
    let text = format!(
        "{CONTACTS_HEADER}\ncontact\tname_hex=616c696365\taddress={}\tverified=true\n",
        forms(1).full
    );
    let error = parse_book("contacts.v1", &text, &known()).unwrap_err().message();
    assert!(error.contains("unknown field `verified`"), "{error}");

    let mut book = ContactBook::empty();
    let error = book.add("alice", None).unwrap_err().message();
    assert!(error.contains("wrong HRP"), "{error}");
    assert!(book.entries().is_empty(), "a refused address adds no contact");

    let unknown = format!("{CONTACTS_HEADER}\ncontact\tname_hex=616c696365\taddress=nope\n");
    assert!(matches!(
        parse_book("contacts.v1", &unknown, &known()),
        Err(ContactError::BadRecord { line: 2, .. })
    ));
}

#[test]
fn duplicate_and_unknown_names_are_refused_by_name_and_remove_persists() {
    let mut book = ContactBook::empty();
    book.add("alice", Some(forms(0))).unwrap();
    let duplicate = book.add("alice", Some(forms(1))).unwrap_err().message();
    assert!(duplicate.contains("`alice` already exists"), "{duplicate}");

    let book2 = parse_book("contacts.v1", &book.encode(), &known()).unwrap();
    let unknown = match book2.resolve("mallory") {
        Ok(_) => panic!("an unknown name must not resolve"),
        Err(error) => error.message(),
    };
    assert_eq!(unknown, "unknown contact `mallory`");
    let removed = book.remove("alice").unwrap();
    assert_eq!(removed.name, "alice");
    assert!(parse_book("contacts.v1", &book.encode(), &known()).unwrap().entries().is_empty());
    assert_eq!(book.remove("alice").unwrap_err().message(), "unknown contact `alice`");
}

#[test]
fn a_name_that_cannot_be_written_is_refused() {
    assert!(validate_name("Zoë").is_ok());
    assert!(matches!(validate_name(""), Err(ContactError::InvalidName { .. })));
    assert!(matches!(validate_name("a\nb"), Err(ContactError::InvalidName { .. })));
    assert_eq!(encode_hex(b"ab"), "6162");
    assert_eq!(decode_hex("6162"), Some(b"ab".to_vec()));
    assert_eq!(decode_hex("616"), None);
    assert_eq!(decode_hex("zz"), None);
}

fn record(seed: u8) -> SendRecord {
    SendRecord {
        txid: [seed; 32],
        submitted_at_tip: 1234 + u64::from(seed),
        amount: 100_000_000,
        fee: 1_000_000,
        recipient_short: format!("qmbs1short{seed}"),
        nullifiers: vec![[seed.wrapping_add(1); 32], [seed.wrapping_add(2); 32]],
    }
}

#[test]
fn records_append_round_trip_and_the_file_is_owner_only() {
    let mut text = append_text(true, &record(1));
    text.push_str(&append_text(false, &record(2)));
    let log = parse_log(SENDS_FILE, &text).unwrap();
    assert_eq!(log.records, vec![record(1), record(2)], "append order, byte-faithful");
    assert_eq!(text.matches(SENDS_HEADER).count(), 1);
    assert_eq!(text.lines().count(), 3);
}

#[test]
fn an_unknown_header_kind_or_field_is_refused_not_guessed() {
    let e = parse_log(SENDS_FILE, "qumbra-wallet sends v9\n").unwrap_err();
    assert!(matches!(e, SendLogError::BadHeader { .. }));
    let msg = e.message();
    assert!(msg.contains("sends v1"), "{msg}");
    assert!(msg.contains("no funds are at stake"), "{msg}");

    let text = format!(
        "{SENDS_HEADER}\nreceive txid={} tip=1 amount=1 fee=1 to=x nf={}\n",
        "aa".repeat(32),
        "bb".repeat(32)
    );
    let e = parse_log(SENDS_FILE, &text).unwrap_err();
    assert!(matches!(e, SendLogError::BadRecord { line: 2, .. }));
    assert!(e.message().contains("it knows `send`"), "{}", e.message());

    let text = format!(
        "{SENDS_HEADER}\nsend txid={} tip=1 amount=1 fee=1 to=x nf={} memo=hi\n",
        "aa".repeat(32),
        "bb".repeat(32)
    );
    let e = parse_log(SENDS_FILE, &text).unwrap_err();
    assert!(e.message().contains("unknown field `memo`"), "{}", e.message());
    assert!(e.message().contains("wrong event"), "{}", e.message());

    let text =
        format!("{SENDS_HEADER}\nsend txid={} tip=1 amount=1 fee=1 to=x\n", "aa".repeat(32));
    assert!(parse_log(SENDS_FILE, &text).unwrap_err().message().contains("no nf"));
}

#[test]
fn a_torn_last_line_is_never_believed_as_a_shorter_record() {
    let before = append_text(true, &record(1));
    let line = append_text(false, &record(2));
    for cut in 1..line.len() {
        let e = parse_log(SENDS_FILE, &format!("{before}{}", &line[..cut])).unwrap_err();
        assert!(matches!(e, SendLogError::BadRecord { line: 3, .. }), "{cut}: {}", e.message());
    }
    // The second nullifier is lost: what is left reads as a record of one.
    let cut = line.len() - 1 - 65;
    let e = parse_log(SENDS_FILE, &format!("{before}{}", &line[..cut])).unwrap_err();
    assert!(e.message().contains("torn"), "{}", e.message());
    assert!(parse_log(SENDS_FILE, SENDS_HEADER).unwrap().records.is_empty());
}

#[test]
fn the_join_runs_on_declared_nullifiers_and_nothing_else() {
    let log = SendLog { records: vec![record(1), record(9)] };
    let matched = log.matching(&[[2u8; 32]]);
    assert_eq!(matched.len(), 1);
    assert_eq!(matched[0], &record(1));
    assert!(log.matching(&[[0xEE; 32]]).is_empty(), "a spend this wallet never recorded");
    assert!(log.matching(&[]).is_empty());

    let mut drifted = record(1);
    drifted.submitted_at_tip = 999_999;
    drifted.txid = [0x5A; 32];
    let log = SendLog { records: vec![drifted.clone()] };
    assert_eq!(log.matching(&[[2u8; 32], [3u8; 32]]), vec![&drifted]);
}

#[test]
fn a_records_line_reads_back() {
    let line: Vec<char> = encode_record(&record(5)).chars().collect();
    assert_eq!(parse_record(&line).unwrap(), record(5));
    assert_eq!(parse_hex32(&hex32(&[7; 32])), Some([7; 32]));
    assert_eq!(parse_hex32("07"), None);
    let bad: Vec<char> = "send txid=zz".chars().collect();
    assert!(parse_record(&bad).is_err());
}
