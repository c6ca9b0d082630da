//! The identifier spelling: canonical base32, agreeing with the
//! identifier crate's own printer.

use oddbot::ident::decode_ulid;
use oddbot::ident::encode_ulid;

fn chars(s: &str) -> Vec<char> {
    s.chars().collect()
}

fn string(v: &[char]) -> String {
    v.iter().collect()
}

#[test]
fn zero_spells_all_zero_digits() {
    assert_eq!(string(&encode_ulid(0)), "00000000000000000000000000");
}

#[test]
fn small_values_spell_exactly() {
    assert_eq!(string(&encode_ulid(1)), "00000000000000000000000001");
    assert_eq!(string(&encode_ulid(31)), "0000000000000000000000000Z");
    assert_eq!(string(&encode_ulid(32)), "00000000000000000000000010");
}

#[test]
fn largest_value_spells_and_reads_back() {
    let s = encode_ulid(u128::MAX);
    assert_eq!(string(&s), "7ZZZZZZZZZZZZZZZZZZZZZZZZZ");
    assert_eq!(decode_ulid(&s), Some(u128::MAX));
}

#[test]
fn spelling_agrees_with_the_identifier_crate() {
    for x in [0u128, 1, 31, 32, 0x0194_fdc2_fa2f_fcc0_41d3_ff12_045b_73c8, u128::MAX] {
        assert_eq!(string(&encode_ulid(x)), ulid::Ulid(x).to_string());
    }
}

#[test]
fn reading_agrees_with_the_identifier_crate() {
    let text = "01D39ZY06FGSCTVN4T2V9PKHFZ";
    let ours = decode_ulid(&chars(text)).expect("a canonical spelling decodes");
    let theirs = ulid::Ulid::from_string(text).expect("the crate accepts it too");
    assert_eq!(ours, theirs.0);
}

#[test]
fn round_trip_through_the_spelling() {
    for x in [0u128, 7, 255, 1 << 64, u128::MAX / 3] {
        assert_eq!(decode_ulid(&encode_ulid(x)), Some(x));
    }
}

#[test]
fn rejects_anything_not_canonical() {
    assert_eq!(decode_ulid(&chars("")), None);
    assert_eq!(decode_ulid(&chars("0000000000000000000000000")), None);
    assert_eq!(decode_ulid(&chars("000000000000000000000000000")), None);
    // A foreign character.
    assert_eq!(decode_ulid(&chars("0000000000000000000000000U")), None);
    // Lowercase is not the canonical spelling.
    assert_eq!(decode_ulid(&chars("0000000000000000000000000z")), None);
    // A first digit of 8 names a value beyond 128 bits.
    assert_eq!(decode_ulid(&chars("80000000000000000000000000")), None);
}
