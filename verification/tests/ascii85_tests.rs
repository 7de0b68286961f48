use wasm_pdf::ascii85::{decode, encode};

#[test]
fn test_encode() {
    let mut bytes = Vec::new();
    let input = "Man is distinguished, not only by his reason, but by this singular passion from other animals, which is a lust of the mind, that by a perseverance of delight in the continued and indefatigable generation of knowledge, exceeds the short vehemence of any carnal pleasure.";
    bytes.extend_from_slice(input.as_bytes());
    let result = encode(&bytes[..]).unwrap();
    let expected = r#"9jqo^BlbD-BleB1DJ+*+F(f,q/0JhKF<GL>Cj@.4Gp$d7F!,L7@<6@)/0JDEF<G%<+EV:2F!,O<DJ+*.@<*K0@<6L(Df-\0Ec5e;DffZ(EZee.Bl.9pF"AGXBPCsi+DGm>@3BB/F*&OCAfu2/AKYi(DIb:@FD,*)+C]U=@3BN#EcYf8ATD3s@q?d$AftVqCh[NqF<G:8+EV:.+Cf>-FD5W8ARlolDIal(DId<j@<?3r@:F%a+D58'ATD4$Bl@l3De:,-DJs`8ARoFb/0JMK@qB4^F!,R<AKZ&-DfTqBG%G>uD.RTpAKYo'+CT/5+Cei#DII?(E,9)oF*2M7/c"#;
    let expected_vec: Vec<u8> = Vec::from(expected.as_bytes());
    assert_eq!(result, expected_vec);
}

#[test]
fn test_string_encode() {
    let bytes = String::from("Tämä on testi.").into_bytes();
    let result = encode(&bytes[..]).unwrap();
    let expected: Vec<u8> = Vec::from(r#"<5YMK_k\DnDBO%4F*)+K"#);
    assert_eq!(result, expected)
}

#[test]
fn test_decode() {
    let mut bytes = Vec::new();
    let raw = r#"9jqo^BlbD-BleB1DJ+*+F(f,q/0JhKF<GL>Cj@.4Gp$d7F!,L7@<6@)/0JDEF<G%<+EV:2F!,O<DJ+*.@<*K0@<6L(Df-\0Ec5e;DffZ(EZee.Bl.9pF"AGXBPCsi+DGm>@3BB/F*&OCAfu2/AKYi(DIb:@FD,*)+C]U=@3BN#EcYf8ATD3s@q?d$AftVqCh[NqF<G:8+EV:.+Cf>-FD5W8ARlolDIal(DId<j@<?3r@:F%a+D58'ATD4$Bl@l3De:,-DJs`8ARoFb/0JMK@qB4^F!,R<AKZ&-DfTqBG%G>uD.RTpAKYo'+CT/5+Cei#DII?(E,9)oF*2M7/c"#;
    bytes.extend_from_slice(raw.as_bytes());
    let result = decode(bytes).unwrap();
    assert_eq!(
        String::from_utf8(result).unwrap(),
        String::from("Man is distinguished, not only by his reason, but by this singular passion from other animals, which is a lust of the mind, that by a perseverance of delight in the continued and indefatigable generation of knowledge, exceeds the short vehemence of any carnal pleasure.")
    );
}

#[test]
fn test_string_decode() {
    let bytes: Vec<u8> = Vec::from(r#"<5YMK_k\DnDBO%4F*)+K"#);
    let result = decode(bytes).unwrap();
    let string_bytes = String::from("Tämä on testi.").into_bytes();
    assert_eq!(result, string_bytes)
}

#[test]
fn test_empty_input_is_error() {
    assert!(encode(&[]).is_err());
}

#[test]
fn test_round_trip_aligned() {
    let input: Vec<u8> = vec![1, 2, 3, 4, 250, 251, 252, 253];
    let enc = encode(&input[..]).unwrap();
    assert_eq!(decode(enc).unwrap(), input);
}

#[test]
fn test_round_trip_unaligned() {
    let input: Vec<u8> = vec![9, 8, 7, 6, 5, 4, 3];
    let enc = encode(&input[..]).unwrap();
    assert_eq!(enc.len(), 9);
    assert_eq!(decode(enc).unwrap(), input);
}

#[test]
fn test_zero_word_shorthand() {
    let enc = encode(&[0, 0, 0, 0]).unwrap();
    assert_eq!(enc, vec![b'z']);
}

#[test]
fn test_decode_rejects_invalid_byte() {
    assert!(decode(vec![b'!', b'!', 0x07, b'!', b'!']).is_err());
}
