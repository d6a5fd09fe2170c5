use qumbra_wallet::envelope::MAGIC;
use qumbra_wallet::store::{
    addresses_text, admit_unwrapped, fresh_entropy, gated, miner_rkm_hex, mnemonic_refusal,
    parse_addresses, phrase_of, read_seed,
    secret_file_protection, secret_file_protection_note, seed_bytes, GatedCreate, Seed, StoreError,
    WalletDir, ADDR_HEADER, ENTROPY_LEN,
};

const SEED_VERSION: u8 = 0x01;
const SEED_PATH: &str = "/w/wallet.seed";

fn seed(entropy: [u8; ENTROPY_LEN]) -> Seed {
    Seed { version: SEED_VERSION, entropy }
}

fn open(bytes: &[u8], addresses: Option<&str>) -> Result<WalletDir, StoreError> {
    WalletDir::open("/w", Some(bytes), addresses, SEED_VERSION)
}

fn open_err(bytes: &[u8]) -> StoreError {
    match open(bytes, None) {
        Err(e) => e,
        Ok(_) => panic!("this seed file must be refused, not opened"),
    }
}

fn open_wrapped_err(bytes: &[u8], seed: Seed) -> StoreError {
    match WalletDir::open_wrapped("/w", Some(bytes), seed, None, SEED_VERSION) {
        Err(e) => e,
        Ok(_) => panic!("the external seed provider must not open this seed file"),
    }
}

fn envelope_bytes(format: u8, protection: u8, payload_len: usize) -> Vec<u8> {
    let mut v = MAGIC.to_vec();
    v.push(format);
    v.push(protection);
    v.extend(std::iter::repeat_n(0xCD, payload_len));
    assert_ne!(v.len(), 1 + ENTROPY_LEN, "the fixture must reach the non-plain arm");
    v
}

#[test]
fn a_created_wallet_reads_back() {
    let s1 = seed([7u8; ENTROPY_LEN]);
    let w1 = WalletDir::create("/a", SEED_PATH, false, s1).unwrap();
    let back = open(&seed_bytes(&w1.seed), Some(&addresses_text(&w1.allocated))).unwrap();
    assert!(back.seed == s1, "the file carries the whole seed");
    assert_eq!(back.allocated, vec![0]);
    assert_eq!(phrase_of("  one two\n three \n"), "one two\n three");
}

#[test]
fn a_bip39_phrase_is_refused_and_the_refusal_says_why() {
    let msg = mnemonic_refusal("12 words").message();
    assert!(msg.contains("NOT BIP-39"), "{msg}");
    assert!(msg.contains("will not guess"), "{msg}");
}

#[test]
fn the_seed_file_is_0600_and_never_overwritten() {
    WalletDir::create("/w", SEED_PATH, false, seed([1; ENTROPY_LEN])).unwrap();
    let again = WalletDir::create("/w", SEED_PATH, true, seed([2; ENTROPY_LEN]));
    assert!(matches!(again, Err(StoreError::SeedExists(_))));
}

#[test]
fn the_stated_protection_matches_what_this_platform_actually_does() {
    let claim = secret_file_protection(true);
    let note = secret_file_protection_note(true);
    assert!(claim.contains("0600"), "unix must state the mode it sets: {claim:?}");
    assert!(
        note.is_none(),
        "unix sets an owner-only mode, so there is no gap to narrate: {note:?}"
    );

    let claim = secret_file_protection(false);
    assert!(!claim.contains("0600"), "a platform without modes claims none: {claim:?}");
    let note = secret_file_protection_note(false)
        .expect("a platform with no owner-only mode must narrate the gap");
    assert!(note.contains("icacls"), "the note must name the fix: {note:?}");
    assert!(note.contains("CANNOT TELL YOU WHAT THAT IS"), "{note:?}");
    assert!(note.contains("Authenticated Users: Modify"), "{note:?}");
    assert!(note.matches("icacls").count() >= 2, "{note:?}");
    assert!(note.contains("owns every coin this wallet holds"), "{note:?}");
    assert!(!note.contains("icacls \"%USERPROFILE%"), "{note:?}");
    assert!(note.matches("<the --dir you passed>").count() >= 2, "{note:?}");
    assert!(note.contains("`(M)` means Modify"), "{note:?}");
}

#[test]
fn the_address_cursor_survives_reopen_and_its_loss_is_only_a_cursor() {
    let mut w = WalletDir::create("/w", SEED_PATH, false, seed([3; ENTROPY_LEN])).unwrap();
    assert_eq!(w.allocated, vec![0]);
    assert_eq!(w.allocate_next(), 1);
    assert_eq!(w.allocate_next(), 2);
    let file = seed_bytes(&w.seed);
    let re = open(&file, Some(&addresses_text(&w.allocated))).unwrap();
    assert_eq!(re.allocated, vec![0, 1, 2]);
    let re2 = open(&file, None).unwrap();
    assert_eq!(re2.allocated, vec![0], "back to index 0 — funds unaffected");
}

#[test]
fn an_unknown_file_version_is_refused_not_guessed() {
    let file = seed_bytes(&seed([4; ENTROPY_LEN]));
    assert!(matches!(
        open(&file, Some("qumbra-wallet addresses v9\n0\n")),
        Err(StoreError::BadAddrFile(_))
    ));
    let mut longer = file.clone();
    longer.push(0xFF);
    assert!(matches!(
        open(&longer, Some(&format!("{ADDR_HEADER}\n0\n"))),
        Err(StoreError::BadSeedFile(_))
    ));
    assert!(matches!(
        WalletDir::open("/w", None, None, SEED_VERSION),
        Err(StoreError::NoWallet(_))
    ));
    assert!(matches!(
        open(&file, Some(&format!("{ADDR_HEADER}\nseven\n"))),
        Err(StoreError::BadAddrFile(_))
    ));
}

#[test]
fn a_flipped_version_byte_is_refused_not_silently_a_different_wallet() {
    let mut file = seed_bytes(&seed([5; ENTROPY_LEN]));
    file[0] = 0xEE;
    let msg = open_err(&file).message();
    assert!(msg.contains("version 238 refused"), "{msg}");
    assert!(msg.contains("different wallet"), "{msg}");
    assert!(read_seed(&file, SEED_VERSION).is_err());
}

#[test]
fn a_wrong_length_file_without_magic_keeps_todays_corrupt_message_verbatim() {
    let e = open_err(&[0x5C; 41]);
    assert!(matches!(e, StoreError::BadSeedFile(_)), "{e:?}");
    assert_eq!(
        e.message(),
        "unreadable seed file: 41 bytes; this binary knows exactly one format: \
         1 version byte + 32 entropy bytes",
        "the corrupt vocabulary is locked to the byte"
    );
}

#[test]
fn a_wrapped_envelope_is_refused_by_name_and_platform_never_as_corrupt() {
    let e = open_err(&envelope_bytes(0x01, 0x01, 96));
    assert!(
        matches!(
            e,
            StoreError::SeedWrappedElsewhere {
                format: "wrapped-seed-v1",
                protection: "macOS Keychain (Secure-Enclave-held key)"
            }
        ),
        "{e:?}"
    );
    let msg = e.message();
    assert!(msg.contains("wrapped by macOS Keychain"), "{msg}");
    assert!(msg.contains("the machine that wrapped it"), "{msg}");
    assert!(msg.contains("The wallet itself is fine"), "{msg}");
    assert!(msg.contains("NOT damaged"), "{msg}");
    assert!(!msg.contains("unreadable"), "{msg}");
    assert!(!msg.contains("mnemonic"), "{msg}");
    for id in [0x02u8, 0x03, 0x04, 0x05] {
        let e = open_err(&envelope_bytes(0x01, id, 40));
        let p = match e {
            StoreError::SeedWrappedElsewhere { protection, .. } => protection,
            other => panic!("protection {id} must be nameable, got {other:?}"),
        };
        let e = open_err(&envelope_bytes(0x01, id, 40));
        assert!(e.message().contains(p), "the name must reach the message");
    }
}

#[test]
fn a_platform_provider_can_open_a_registered_envelope_without_duplicating_the_cursor() {
    let s = seed([0x42; ENTROPY_LEN]);
    let mut plain = WalletDir::create("/w", SEED_PATH, false, s).unwrap();
    plain.allocate_next();
    let wrapped = WalletDir::open_wrapped(
        "/w",
        Some(&envelope_bytes(0x01, 0x01, 96)),
        s,
        Some(&addresses_text(&plain.allocated)),
        SEED_VERSION,
    )
    .unwrap();
    assert_eq!(wrapped.allocated, vec![0, 1]);
    assert!(wrapped.seed == plain.seed);
}

#[test]
fn the_platform_provider_cannot_override_plain_or_unknown_seed_files() {
    let plain = seed_bytes(&seed([1; ENTROPY_LEN]));
    let error = open_wrapped_err(&plain, seed([2; ENTROPY_LEN]));
    assert!(
        error.message().contains("cannot override a plain seed file"),
        "{}",
        error.message()
    );
    assert!(matches!(
        open_wrapped_err(&envelope_bytes(0x7f, 0x01, 96), seed([9; ENTROPY_LEN])),
        StoreError::SeedFromNewerTool { format: 0x7f, protection: 0x01 }
    ));
}

#[test]
fn the_platform_provider_cannot_bypass_the_seed_version_gate() {
    let v2 = Seed { version: 2, entropy: [9; ENTROPY_LEN] };
    let error = open_wrapped_err(&envelope_bytes(0x01, 0x02, 96), v2);
    assert!(error.message().contains("unwrapped version 2 refused"), "{}", error.message());
    assert!(admit_unwrapped(&envelope_bytes(0x01, 0x02, 96), v2, 2).is_ok());
}

#[test]
fn an_envelope_from_a_newer_registry_is_refused_as_newer_never_as_corrupt() {
    for (format, protection) in [(0x7Fu8, 0x01u8), (0x01, 0x7F), (0x00, 0x00)] {
        let e = open_err(&envelope_bytes(format, protection, 64));
        assert!(
            matches!(e, StoreError::SeedFromNewerTool { format: f, protection: p }
                     if f == format && p == protection),
            "{e:?}"
        );
        let msg = e.message();
        assert!(msg.contains("written by a newer tool"), "{msg}");
        assert!(msg.contains(&format!("format id {format}")), "{msg}");
        assert!(msg.contains(&format!("protection id {protection}")), "{msg}");
        assert!(msg.contains("knows format ids [1]"), "{msg}");
        assert!(msg.contains("protection ids [1, 2, 3, 4, 5]"), "{msg}");
        assert!(!msg.contains("unreadable"), "{msg}");
        assert!(!msg.contains("corrupt") || msg.contains("NOT corrupt"), "{msg}");
    }
}

#[test]
fn a_truncated_envelope_header_is_damage_not_a_missing_format() {
    let mut bytes = MAGIC.to_vec();
    bytes.push(0x01);
    let e = open_err(&bytes);
    assert!(matches!(e, StoreError::BadSeedFile(_)), "{e:?}");
    let msg = e.message();
    assert!(msg.contains("cannot even name itself"), "{msg}");
    assert!(msg.contains("restore from the mnemonic"), "{msg}");
}

#[test]
fn an_envelope_seed_file_is_never_overwritten_by_a_fresh_keygen() {
    match WalletDir::create("/w", SEED_PATH, true, seed([1; ENTROPY_LEN])) {
        Err(StoreError::SeedExists(p)) => assert_eq!(p, SEED_PATH),
        Err(other) => panic!("keygen must refuse by SeedExists, got {other:?}"),
        Ok(_) => panic!("keygen must NEVER re-key a dir holding an envelope"),
    }
}

#[test]
fn the_plain_33_byte_format_is_byte_identical_and_still_the_only_one_read() {
    let entropy = [0x2B; ENTROPY_LEN];
    let raw = seed_bytes(&seed(entropy));
    assert_eq!(raw.len(), 1 + ENTROPY_LEN, "33 bytes, unchanged");
    assert_eq!(raw[0], SEED_VERSION);
    assert_eq!(&raw[1..], &entropy);
    let re = open(&raw, None).unwrap();
    assert_eq!(re.seed.entropy, entropy);
    assert_eq!(re.seed.version, SEED_VERSION);
    assert_eq!(re.allocated, vec![0]);
}

#[test]
fn a_refused_gate_writes_nothing_at_all() {
    let entropy = fresh_entropy(SEED_PATH, false).expect("the refusal is not an error");
    let outcome = gated("/w", SEED_PATH, false, seed(entropy), false).unwrap();
    assert!(matches!(outcome, GatedCreate::Refused));
}

#[test]
fn an_accepted_gate_writes_the_wallet_the_shown_mnemonic_restores() {
    let entropy = fresh_entropy(SEED_PATH, false).unwrap();
    let w = match gated("/w", SEED_PATH, false, seed(entropy), true).expect("create") {
        GatedCreate::Created(w) => w,
        GatedCreate::Refused => panic!("the phrase was confirmed"),
    };
    assert_eq!(w.seed.entropy, entropy, "the shown seed is this wallet's seed");
    assert_eq!(w.allocated, vec![0]);
}

#[test]
fn generation_refuses_an_occupied_dir_without_showing_a_mnemonic() {
    assert!(matches!(fresh_entropy(SEED_PATH, true), Err(StoreError::SeedExists(_))));
    assert!(matches!(
        gated("/w", SEED_PATH, true, seed([5; ENTROPY_LEN]), true),
        Err(StoreError::SeedExists(_))
    ));
}

#[test]
fn fresh_entropy_is_drawn_anew() {
    let a = fresh_entropy(SEED_PATH, false).unwrap();
    let b = fresh_entropy(SEED_PATH, false).unwrap();
    assert_ne!(a, [0; 32]);
    assert_ne!(a, b, "two draws of 32 random bytes differ");
}

#[test]
fn miner_rkm_hex_is_the_wallet_kernels_own_derivation() {
    let rkm = [0x0102030405060708u64, 9, u64::MAX, 0];
    let want: String =
        rkm.iter().flat_map(|l| l.to_le_bytes()).map(|b| format!("{b:02x}")).collect();
    let got = miner_rkm_hex(&rkm);
    assert_eq!(got, want);
    assert_eq!(got.len(), 64, "the node config's form is 64 hex characters");
    assert!(got.chars().all(|c| c.is_ascii_hexdigit() && !c.is_ascii_uppercase()));
    assert_ne!(miner_rkm_hex(&[1; 4]), miner_rkm_hex(&[2; 4]));
}

#[test]
fn addresses_read_back_in_order() {
    assert_eq!(parse_addresses(&addresses_text(&vec![3, 0, 7])).unwrap(), vec![0, 3, 7]);
    assert!(parse_addresses("").is_err());
}
