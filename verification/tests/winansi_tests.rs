use wasm_pdf::winansi::{encode, encode_char, get_code};

#[test]
fn test_plain_ascii_passes_through() {
    assert_eq!(encode("Hello World!"), b"Hello World!".to_vec());
}

#[test]
fn test_parentheses_escaped_once() {
    let out = encode("f(x) = y");
    assert_eq!(out, b"f\\(x\\) = y".to_vec());
    let backslashes = out.iter().filter(|&&b| b == 92).count();
    assert_eq!(backslashes, 2);
}

#[test]
fn test_backslash_escaped() {
    assert_eq!(encode("a\\b"), vec![97, 92, 92, 98]);
}

#[test]
fn test_unknown_character_becomes_question_mark() {
    assert_eq!(encode("\u{4e16}"), vec![63]);
}

#[test]
fn test_typographic_characters() {
    assert_eq!(encode_char('\u{20ac}'), Some(128));
    assert_eq!(encode_char('\u{2014}'), Some(151));
    assert_eq!(encode_char('\u{9}'), None);
    assert_eq!(encode_char('\u{e4}'), Some(0xe4));
}

#[test]
fn test_latin1_range_kept() {
    assert_eq!(encode("Tämä"), vec![84, 0xe4, 109, 0xe4]);
}

#[test]
fn test_glyph_name_lookup() {
    assert_eq!(get_code("space"), Some(0x20));
    assert_eq!(get_code("parenleft"), Some(0x28));
    assert_eq!(get_code("Euro"), Some(0x80));
    assert_eq!(get_code("ydieresis"), Some(0xFF));
    assert_eq!(get_code("no-such-glyph"), None);
}
