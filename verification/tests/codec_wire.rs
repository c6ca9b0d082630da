//! The wire format: exact frames, escapes, round trips, and
//! agreement with an ordinary JSON reader.

use oddbot::codec::decode_squeak;
use oddbot::codec::encode_squeak;
use oddbot::squeak::Squeak;

fn squeak(id: u128, content: &str, author: &str) -> Squeak {
    Squeak::builder()
        .content(content.to_string())
        .user(author.to_string())
        .build_with_id(id)
        .expect("both fields were set")
}

#[test]
fn encode_writes_the_exact_frame() {
    let s = encode_squeak(&squeak(1, "hi", "bob"));
    assert_eq!(
        s,
        "{\"id\":\"00000000000000000000000001\",\"content\":\"hi\",\"author\":{\"name\":\"bob\"}}"
    );
}

#[test]
fn round_trip_preserves_every_field() {
    let original = squeak(0x0194_fdc2_fa2f_fcc0_41d3_ff12_045b_73c8u128, "hi", "bob");
    let frame = encode_squeak(&original);
    let back = decode_squeak(&frame).expect("an encoded frame decodes");
    assert_eq!(back.id, original.id);
    assert_eq!(back.content, "hi");
    assert_eq!(back.author.name, "bob");
}

#[test]
fn round_trip_with_escapes() {
    let tricky = "a\"quote\" and \\backslash\\ and\nnewline\ttab\rret\u{8}\u{c}\u{1}\u{1f} done";
    let author = "bo\"b";
    let frame = encode_squeak(&squeak(42, tricky, author));
    let back = decode_squeak(&frame).expect("an encoded frame decodes");
    assert_eq!(back.content, tricky);
    assert_eq!(back.author.name, author);
    assert_eq!(back.id, 42);
}

#[test]
fn round_trip_with_unicode_content() {
    let content = "héllo wörld — ☔ 🐀 squeak";
    let frame = encode_squeak(&squeak(9, content, "ünïcode"));
    let back = decode_squeak(&frame).expect("an encoded frame decodes");
    assert_eq!(back.content, content);
    assert_eq!(back.author.name, "ünïcode");
}

#[test]
fn frames_agree_with_an_ordinary_json_reader() {
    let content = "quote \" slash \\ ctrl \u{1} nl \n tab \t done";
    let frame = encode_squeak(&squeak(5, content, "bob"));
    let v: serde_json::Value = serde_json::from_str(&frame).expect("the frame is valid JSON");
    assert_eq!(v["id"], "00000000000000000000000005");
    assert_eq!(v["content"], content);
    assert_eq!(v["author"]["name"], "bob");
}

#[test]
fn frames_agree_with_the_reference_serializer() {
    // serde_json writes objects in field order with the same escape
    // choices; the verified encoder must produce the identical text.
    let content = "quote \" slash \\ ctrl \u{1} nl \n tab \t bs \u{8} ff \u{c} cr \r done";
    let frame = encode_squeak(&squeak(5, content, "b\"ob"));
    let reference = format!(
        "{{\"id\":{},\"content\":{},\"author\":{{\"name\":{}}}}}",
        serde_json::to_string("00000000000000000000000005").unwrap(),
        serde_json::to_string(content).unwrap(),
        serde_json::to_string("b\"ob").unwrap(),
    );
    assert_eq!(frame, reference);
}

#[test]
fn decode_rejects_what_the_encoder_never_writes() {
    assert!(decode_squeak("").is_none());
    assert!(decode_squeak("xyz").is_none());
    assert!(decode_squeak("{\"id\":\"tooshort\",\"content\":\"a\",\"author\":{\"name\":\"b\"}}")
        .is_none());
    // An identifier with a foreign character.
    assert!(decode_squeak(
        "{\"id\":\"0000000000000000000000000!\",\"content\":\"a\",\"author\":{\"name\":\"b\"}}"
    )
    .is_none());
    // An identifier out of the 128-bit range: first digit 8.
    assert!(decode_squeak(
        "{\"id\":\"80000000000000000000000000\",\"content\":\"a\",\"author\":{\"name\":\"b\"}}"
    )
    .is_none());
    // A truncated frame.
    assert!(decode_squeak("{\"id\":\"00000000000000000000000001\",\"content\":\"a\"").is_none());
    // Trailing garbage.
    assert!(decode_squeak(
        "{\"id\":\"00000000000000000000000001\",\"content\":\"a\",\"author\":{\"name\":\"b\"}}x"
    )
    .is_none());
    // A raw control character inside a string.
    assert!(decode_squeak(
        "{\"id\":\"00000000000000000000000001\",\"content\":\"a\u{1}\",\"author\":{\"name\":\"b\"}}"
    )
    .is_none());
}
