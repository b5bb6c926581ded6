use hydration_client::wire::{decode_path, encode_path};

#[test]
fn a_plain_path_round_trips_unchanged() {
    let p = "Documents/report final.docx";
    assert_eq!(decode_path(&encode_path(p)), p);
}

#[test]
fn the_tricky_characters_round_trip() {
    let p = "a\\b c=d\ne\r";
    assert_eq!(decode_path(&encode_path(p)), p);
}

#[test]
fn an_encoded_path_needs_no_whitespace_or_equals() {
    let p = "a b=c d";
    let enc = encode_path(p);
    assert!(!enc.contains(' '));
    assert!(!enc.contains('='));
    assert!(!enc.contains('\n'));
}

#[test]
fn a_trailing_backslash_is_kept_verbatim() {
    assert_eq!(decode_path("a\\"), "a\\");
}

#[test]
fn the_escapes_are_those_of_the_protocol() {
    assert_eq!(encode_path("a\\b c=d\ne\r"), "a\\\\b\\sc\\ed\\ne\\r");
}

#[test]
fn no_white_space_is_left() {
    let all: String = (0..=0x3000u32)
        .filter_map(char::from_u32)
        .filter(|c| c.is_whitespace())
        .collect();
    assert_eq!(all.chars().count(), 25);
    let encoded = encode_path(&format!("a{all}b"));
    assert!(!encoded.contains(char::is_whitespace));
    assert!(encoded.starts_with("a\\t\\n\\v\\f\\r\\s"));
    assert_eq!(decode_path(&encoded), format!("a{all}b"));
    assert_eq!(encode_path("a\tb\u{a0}c"), "a\\tb\\Bc");
}

#[test]
fn a_letter_that_stands_for_nothing_keeps_its_backslash() {
    assert_eq!(decode_path("a\\zb"), "a\\zb");
}
