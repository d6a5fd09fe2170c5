use qumbra_wallet::order::order_of;
use qumbra_wallet::paging::{check_height, extend, range_contains, HeightFault};
use qumbra_wallet::random::{lanes_of, os_rng, rand_lanes};
use qumbra_wallet::send::dummy_of;
use qumbra_wallet::table::NameTable;
use qumbra_wallet::text::{
    dec_of, hex_of, number_of, parse_hex_number, parse_number, split, trim, unhex_bytes, words,
};
use qumbra_wallet::wire::{digest_bytes, digest_lanes};

fn chars(s: &str) -> Vec<char> {
    s.chars().collect()
}

#[test]
fn numbers_are_read_as_the_standard_parser_reads_them() {
    for s in ["0", "7", "+7", "007", "18446744073709551615"] {
        assert_eq!(number_of(s), Ok(s.parse::<u64>().unwrap()));
    }
    for s in ["", "+", "-1", "1a", "18446744073709551616", " 1"] {
        assert_eq!(number_of(s), Err(s.parse::<u64>().unwrap_err().to_string()));
    }
    assert_eq!(parse_number(&chars("65535"), 65_535), Some(65_535));
    assert_eq!(parse_number(&chars("65536"), 65_535), None);
    assert_eq!(parse_hex_number(&chars("1f"), 1_000), Some(31));
    assert_eq!(dec_of(u64::MAX), "18446744073709551615");
}

#[test]
fn hex_reads_back_what_it_wrote() {
    let all: Vec<u8> = (0..=255).collect();
    assert_eq!(unhex_bytes(&chars(&hex_of(&all))), Some(all));
    assert_eq!(unhex_bytes(&chars("AbcD")), Some(vec![0xAB, 0xCD]));
    assert_eq!(unhex_bytes(&chars("abc")), None);
    assert_eq!(unhex_bytes(&chars("zz")), None);
}

#[test]
fn text_is_cut_at_its_marks() {
    assert_eq!(split(&chars("a,,b"), ','), vec![chars("a"), chars(""), chars("b")]);
    assert_eq!(words(&chars(" a\t b\n")), vec![chars("a"), chars("b")]);
    assert_eq!(trim(&chars("\u{3000}x y\r\n")), chars("x y"));
}

#[test]
fn a_table_is_ordered_by_name_and_holds_each_once() {
    let mut t: NameTable<u64> = NameTable::new();
    t.insert("bob".to_string(), 1);
    t.insert("alice".to_string(), 2);
    t.insert("bob".to_string(), 3);
    assert_eq!(t.entries, vec![("alice".to_string(), 2), ("bob".to_string(), 3)]);
    assert_eq!(t.find("bob"), Some(1));
    assert_eq!(t.find("carol"), None);
}

#[test]
fn an_order_is_stable() {
    assert_eq!(order_of(&[5, 1, 5, 0]), vec![3, 1, 0, 2]);
}

#[test]
fn heights_rise_by_one() {
    assert_eq!(check_height(None, 3, 9, 3), None);
    assert_eq!(check_height(None, 3, 9, 10), Some(HeightFault::OutOfRange { height: 10 }));
    assert_eq!(
        check_height(Some((3, 5)), 3, 9, 5),
        Some(HeightFault::NotAscending { previous: 5, height: 5 })
    );
    assert_eq!(
        check_height(Some((3, 5)), 3, 9, 7),
        Some(HeightFault::Gap { expected: 6, got: 7 })
    );
    assert_eq!(extend(Some((3, 5)), 6), Some((3, 6)));
    assert!(range_contains(Some((2, 9)), (3, 9)));
    assert!(!range_contains(None, (3, 3)));
}

#[test]
fn lanes_and_bytes_are_one_value() {
    let lanes = [u64::MAX, 0, 0x0102030405060708, 9];
    assert_eq!(digest_lanes(&digest_bytes(&lanes)), lanes);
    assert_eq!(digest_bytes(&[1, 0, 0, 0])[0], 1);
}

#[test]
fn random_lanes_differ() {
    let mut rng = os_rng();
    let a = rand_lanes(&mut rng);
    let b = rand_lanes(&mut rng);
    assert_ne!(a, b);
    assert_ne!(a, rand_lanes(&mut os_rng()));
}

#[test]
fn draws_are_laid_out_in_their_order() {
    let draws = [[1, 0, 0, 0, 0, 0, 0, 0], [0, 1, 0, 0, 0, 0, 0, 0], [0xFF; 8], [0; 8]];
    assert_eq!(lanes_of(&draws), [1, 256, u64::MAX, 0]);
    let dummy = dummy_of(&[[1, 2, 3, 4], [5; 4], [6; 4], [7; 4]]);
    assert_eq!((dummy.value, dummy.d), (0, [1, 2]));
    assert_eq!((dummy.sk, dummy.rho, dummy.rseed), ([5; 4], [6; 4], [7; 4]));
}
