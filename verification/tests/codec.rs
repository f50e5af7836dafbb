use uid_store::{number_to_uid, uid_to_number};

#[test]
fn test_number_to_uid() {
    assert_eq!(number_to_uid(0), "A");
    assert_eq!(number_to_uid(1), "B");
    assert_eq!(number_to_uid(52), "0");
    assert_eq!(number_to_uid(9902), "sjC");
    assert_eq!(uid_to_number("A"), Some(0));
    assert_eq!(uid_to_number("B"), Some(1));
    assert_eq!(uid_to_number("0"), Some(52));
    assert_eq!(uid_to_number("sjC"), Some(9902));
    assert_eq!(uid_to_number(&number_to_uid(94029)), Some(94029));
    assert_eq!(uid_to_number(&number_to_uid(2294029)), Some(2294029));
    assert_eq!(uid_to_number(&number_to_uid(43494029)), Some(43494029));
    assert_eq!(
        uid_to_number(&number_to_uid(uid_to_number("mRO").expect("ok"))).expect("ok"),
        uid_to_number("mRO").expect("ok")
    );
}

#[test]
fn encode_boundary_values() {
    assert_eq!(number_to_uid(0), "A");
    assert_eq!(uid_to_number("A"), Some(0));
    assert_eq!(uid_to_number("B"), Some(1));
}

#[test]
fn encode_writes_least_significant_digit_first() {
    assert_eq!(number_to_uid(61), "9");
    assert_eq!(number_to_uid(62), "AB");
    assert_eq!(number_to_uid(63), "BB");
    assert_eq!(number_to_uid(3843), "99");
    assert_eq!(number_to_uid(3844), "AAB");
    assert_eq!(number_to_uid(94029), "lcY");
    assert_eq!(number_to_uid(43494029), "lwe6C");
    assert_eq!(number_to_uid(4294967296), "EMPpqE");
}

#[test]
fn encode_uses_each_range_of_the_alphabet() {
    assert_eq!(number_to_uid(25), "Z");
    assert_eq!(number_to_uid(26), "a");
    assert_eq!(number_to_uid(51), "z");
    assert_eq!(number_to_uid(52), "0");
    assert_eq!(uid_to_number("Z"), Some(25));
    assert_eq!(uid_to_number("a"), Some(26));
    assert_eq!(uid_to_number("z"), Some(51));
    assert_eq!(uid_to_number("9"), Some(61));
}

#[test]
fn encode_length_grows_with_powers_of_62() {
    assert_eq!(number_to_uid(61).len(), 1);
    assert_eq!(number_to_uid(62).len(), 2);
    assert_eq!(number_to_uid(3843).len(), 2);
    assert_eq!(number_to_uid(3844).len(), 3);
    assert_eq!(number_to_uid(238327).len(), 3);
    assert_eq!(number_to_uid(238328).len(), 4);
    assert_eq!(number_to_uid(usize::MAX).len(), 11);
}

#[test]
fn decode_reads_mro() {
    assert_eq!(uid_to_number("mRO"), Some(54908));
}

#[test]
fn round_trip_small_numbers() {
    for n in 0..10000usize {
        assert_eq!(uid_to_number(&number_to_uid(n)), Some(n));
    }
}

#[test]
fn round_trip_around_two_to_the_32() {
    let base: usize = 1 << 32;
    for n in (base - 2000)..(base + 2000) {
        assert_eq!(uid_to_number(&number_to_uid(n)), Some(n));
    }
}

#[test]
fn round_trip_largest_word() {
    assert_eq!(number_to_uid(18446744073709551615), "PiRKGBkRq8V");
    assert_eq!(uid_to_number("PiRKGBkRq8V"), Some(usize::MAX));
    assert_eq!(uid_to_number(&number_to_uid(usize::MAX - 1)), Some(usize::MAX - 1));
}

#[test]
fn decode_rejects_empty_and_foreign_characters() {
    assert_eq!(uid_to_number(""), None);
    assert_eq!(uid_to_number("!@#"), None);
}

#[test]
fn decode_rejects_one_bad_character_anywhere() {
    assert_eq!(uid_to_number("-BC"), None);
    assert_eq!(uid_to_number("A-C"), None);
    assert_eq!(uid_to_number("AB-"), None);
    assert_eq!(uid_to_number("A B"), None);
    assert_eq!(uid_to_number("@"), None);
    assert_eq!(uid_to_number("["), None);
    assert_eq!(uid_to_number("`"), None);
    assert_eq!(uid_to_number("{"), None);
    assert_eq!(uid_to_number("/"), None);
    assert_eq!(uid_to_number(":"), None);
}

#[test]
fn decode_rejects_text_beyond_ascii() {
    assert_eq!(uid_to_number("\u{e9}"), None);
    assert_eq!(uid_to_number("AB\u{e9}"), None);
    assert_eq!(uid_to_number("\u{1f600}A"), None);
}

#[test]
fn decode_rejects_numbers_beyond_the_word() {
    // One more than the largest word, and a number of twelve digits.
    assert_eq!(uid_to_number("QiRKGBkRq8V"), None);
    assert_eq!(uid_to_number("99999999999"), None);
    assert_eq!(uid_to_number("AAAAAAAAAAAB"), None);
    assert_eq!(uid_to_number("9999999999"), Some(839299365868340223));
}

#[test]
fn decode_ignores_zero_digits_in_high_places() {
    assert_eq!(uid_to_number("BAAAAAAAAAAAAAAAAAAAAAAA"), Some(1));
    assert_eq!(uid_to_number("AAAA"), Some(0));
    assert_eq!(uid_to_number("sjCAA"), Some(9902));
}
