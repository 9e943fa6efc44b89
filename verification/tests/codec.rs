use invisible_text::codec::{decode_string, encode_string, from_invisible, lossy_encode_chars, to_invisible};

#[test]
fn to_invisible_maps_printable_ascii() {
    assert_eq!(to_invisible('H'), Some('\u{E0048}'));
    assert_eq!(to_invisible('i'), Some('\u{E0069}'));
    assert_eq!(to_invisible('!'), Some('\u{E0021}'));
    assert_eq!(to_invisible(' '), Some('\u{E0020}'));
}

#[test]
fn to_invisible_boundaries() {
    assert_eq!(to_invisible('\u{1F}'), None);
    assert_eq!(to_invisible('\u{20}'), Some('\u{E0020}'));
    assert_eq!(to_invisible('\u{7F}'), Some('\u{E007F}'));
    assert_eq!(to_invisible('\u{80}'), None);
    assert_eq!(to_invisible('é'), None);
    assert_eq!(to_invisible('\u{E0048}'), None);
}

#[test]
fn from_invisible_maps_tag_range() {
    assert_eq!(from_invisible('\u{E0048}'), Some('H'));
    assert_eq!(from_invisible('\u{E0020}'), Some(' '));
    assert_eq!(from_invisible('\u{E007F}'), Some('\u{7F}'));
}

#[test]
fn from_invisible_boundaries() {
    assert_eq!(from_invisible('\u{E001F}'), None);
    assert_eq!(from_invisible('\u{E0080}'), None);
    assert_eq!(from_invisible('H'), None);
    assert_eq!(from_invisible('\u{E0000}'), None);
}

#[test]
fn encode_string_hi_exact_code_points() {
    let encoded = encode_string("Hi!").unwrap();
    assert_eq!(encoded, "\u{E0048}\u{E0069}\u{E0021}");
}

#[test]
fn encode_string_rejects_out_of_range() {
    assert!(encode_string("Hi\u{1F}!").is_err());
    assert!(encode_string("héllo").is_err());
    assert!(encode_string("tab\there").is_err());
    assert!(encode_string("\u{E0048}").is_err());
}

#[test]
fn encode_string_boundary_values() {
    assert!(encode_string("\u{1F}").is_err());
    assert_eq!(encode_string("\u{7F}").unwrap(), "\u{E007F}");
    assert_eq!(encode_string("\u{20}").unwrap(), "\u{E0020}");
}

#[test]
fn encode_string_empty_succeeds() {
    assert_eq!(encode_string("").unwrap(), "");
}

#[test]
fn decode_string_round_trips_encoding() {
    let samples = ["Hi!", "hello world", " ", "~!@#$%^&*()_+", "\u{20}\u{7F}"];
    for s in samples {
        let encoded = encode_string(s).unwrap();
        assert_eq!(decode_string(&encoded), *s);
    }
}

#[test]
fn decode_string_of_plain_text_is_empty() {
    assert_eq!(decode_string("no hidden data here"), "");
    assert_eq!(decode_string(""), "");
    assert_eq!(decode_string("unicode: é ☃ 語"), "");
}

#[test]
fn decode_string_filters_surrounding_text() {
    let wrapped = "ab\u{E0048}cd\u{E0069}e f\u{E0021}g";
    assert_eq!(decode_string(wrapped), "Hi!");
}

#[test]
fn lossy_encode_drops_unencodable() {
    let chars = lossy_encode_chars("aé\u{1F}b");
    assert_eq!(chars, vec!['\u{E0061}', '\u{E0062}']);
}

#[test]
fn lossy_encode_empty() {
    let chars = lossy_encode_chars("");
    assert!(chars.is_empty());
}
