use invisible_text::codec::decode_string;
use invisible_text::intersperse::intersperse;

#[test]
fn intersperse_two_char_payload_over_four_gaps() {
    // "a b c" segments into ["a", " ", "b", " ", "c"]: five segments, four
    // gaps. "XY" encodes to two invisible characters, so the chunk size is
    // ceil(2 / 4) = 1 and only the first two gaps carry data.
    let out = intersperse("a b c", "XY").unwrap();
    assert_eq!(out, "a\u{E0058} \u{E0059}b c");
    assert_eq!(decode_string(&out), "XY");
}

#[test]
fn intersperse_ceiling_chunking_three_gaps() {
    // "a b " segments into ["a", " ", "b", " "]: four segments, three gaps.
    // A seven-character payload gives chunk size ceil(7 / 3) = 3, and the
    // gaps fill in order: 3, 3, 1.
    let out = intersperse("a b ", "ABCDEFG").unwrap();
    assert_eq!(
        out,
        "a\u{E0041}\u{E0042}\u{E0043} \u{E0044}\u{E0045}\u{E0046}b\u{E0047} "
    );
    assert_eq!(decode_string(&out), "ABCDEFG");
}

#[test]
fn intersperse_decoding_recovers_payload() {
    let out = intersperse("the quick brown fox", "secret data!").unwrap();
    assert_eq!(decode_string(&out), "secret data!");
}

#[test]
fn intersperse_drops_unencodable_payload_characters() {
    let out = intersperse("hello world", "Hé!").unwrap();
    assert_eq!(decode_string(&out), "H!");
}

#[test]
fn intersperse_empty_payload_keeps_message() {
    let out = intersperse("hello world", "").unwrap();
    assert_eq!(out, "hello world");
    assert_eq!(decode_string(&out), "");
}

#[test]
fn intersperse_single_segment_fails() {
    assert!(intersperse("word", "XY").is_err());
}

#[test]
fn intersperse_empty_message_fails() {
    assert!(intersperse("", "XY").is_err());
}

#[test]
fn intersperse_payload_longer_than_gaps() {
    // "a b" has three segments and two gaps; a five-character payload gives
    // chunk size ceil(5 / 2) = 3, distributed 3, 2.
    let out = intersperse("a b", "HELLO").unwrap();
    assert_eq!(
        out,
        "a\u{E0048}\u{E0045}\u{E004C} \u{E004C}\u{E004F}b"
    );
    assert_eq!(decode_string(&out), "HELLO");
}

#[test]
fn intersperse_keeps_visible_message_text() {
    let out = intersperse("one two", "Z").unwrap();
    let visible: String = out.chars().filter(|c| (*c as u32) < 0xE0000).collect();
    assert_eq!(visible, "one two");
}
