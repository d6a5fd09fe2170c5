use qumbra_wallet::envelope::{
    id_list, inspect, known_format_ids, known_protection_ids, name_of, Verdict, FORMATS,
    HEADER_LEN, MAGIC, PROTECTIONS,
};
use qumbra_wallet::store::ENTROPY_LEN;

const SEED_VERSION: u8 = 0x01;

fn envelope(format: u8, protection: u8, payload_len: usize) -> Vec<u8> {
    let mut v = MAGIC.to_vec();
    v.push(format);
    v.push(protection);
    v.extend(std::iter::repeat_n(0xAB, payload_len));
    v
}

#[test]
fn the_magic_and_header_length_are_golden() {
    assert_eq!(MAGIC, [0x51, 0x4D, 0x42, 0x53, 0x45, 0x45, 0x44, 0x00]);
    assert_eq!(&MAGIC, b"QMBSEED\0");
    assert_eq!(HEADER_LEN, 10);
    assert!(MAGIC.len() >= 8, "at least 8 magic bytes");
}

#[test]
fn the_reserved_registry_is_golden() {
    assert_eq!(FORMATS, [(0x01u8, "wrapped-seed-v1")]);
    assert_eq!(
        PROTECTIONS,
        [
            (0x01u8, "macOS Keychain (Secure-Enclave-held key)"),
            (0x02u8, "macOS Keychain (software key, P-256 fallback)"),
            (0x03u8, "Windows DPAPI (per-user software protection)"),
            (0x04u8, "Windows CNG (TPM-backed)"),
            (0x05u8, "Linux Secret Service"),
        ]
    );
    assert_eq!(known_format_ids(), "1");
    assert_eq!(known_protection_ids(), "1, 2, 3, 4, 5");
    assert!(name_of(&FORMATS, 0x00).is_none());
    assert!(name_of(&PROTECTIONS, 0x00).is_none());
}

#[test]
fn a_known_record_is_named_by_format_and_platform() {
    let v = inspect(&envelope(0x01, 0x01, 64));
    assert_eq!(
        v,
        Verdict::Wrapped {
            format: "wrapped-seed-v1",
            protection: "macOS Keychain (Secure-Enclave-held key)"
        }
    );
    for (id, name) in PROTECTIONS {
        assert_eq!(
            inspect(&envelope(0x01, id, 8)),
            Verdict::Wrapped { format: "wrapped-seed-v1", protection: name }
        );
    }
}

#[test]
fn an_unknown_id_on_either_axis_is_a_newer_tool_not_a_wrapped_record() {
    assert_eq!(
        inspect(&envelope(0x7F, 0x01, 16)),
        Verdict::Unknown { format: 0x7F, protection: 0x01 },
        "unknown format, known protection"
    );
    assert_eq!(
        inspect(&envelope(0x01, 0x7F, 16)),
        Verdict::Unknown { format: 0x01, protection: 0x7F },
        "known format, unknown protection"
    );
    assert_eq!(
        inspect(&envelope(0x00, 0x00, 16)),
        Verdict::Unknown { format: 0, protection: 0 },
        "the reserved-invalid ids are unknown, never a match"
    );
}

#[test]
fn magic_without_a_whole_header_is_a_damaged_envelope() {
    for len in 0..2 {
        let mut v = MAGIC.to_vec();
        v.extend(std::iter::repeat_n(0x01, len));
        assert_eq!(
            inspect(&v),
            Verdict::TruncatedHeader { len: MAGIC.len() + len },
            "magic + {len} byte(s) cannot name itself"
        );
    }
    assert!(matches!(inspect(&envelope(0x01, 0x05, 0)), Verdict::Wrapped { .. }));
}

#[test]
fn anything_without_the_magic_is_not_an_envelope() {
    assert_eq!(inspect(&[]), Verdict::NotAnEnvelope);
    assert_eq!(inspect(&[0xFF; 41]), Verdict::NotAnEnvelope);
    let mut plain = vec![SEED_VERSION];
    plain.extend(std::iter::repeat_n(0x5A, ENTROPY_LEN));
    for cut in 1..plain.len() {
        assert_eq!(
            inspect(&plain[..cut]),
            Verdict::NotAnEnvelope,
            "a plain file truncated to {cut} bytes must never look like an envelope"
        );
    }
    let mut near = MAGIC.to_vec();
    near[7] = 0x01;
    near.extend([0x01, 0x01]);
    assert_eq!(inspect(&near), Verdict::NotAnEnvelope);
}

#[test]
fn the_payload_does_not_change_what_the_header_says() {
    for n in [0usize, 1, 7, 64] {
        assert_eq!(inspect(&envelope(0x01, 0x03, n)), inspect(&envelope(0x01, 0x03, 0)));
    }
}

#[test]
fn an_empty_table_lists_no_ids() {
    assert_eq!(id_list(&[]), "");
    assert_eq!(id_list(&[(7, "a"), (9, "b")]), "7, 9");
}
