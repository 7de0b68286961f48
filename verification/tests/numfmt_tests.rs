use wasm_pdf::numfmt::{fmt_u64, fmt_u64_pad10};
use wasm_pdf::styles::{HorizontalAlign, PathStyle};

#[test]
fn test_decimal_rendering() {
    assert_eq!(fmt_u64(0), b"0".to_vec());
    assert_eq!(fmt_u64(42), b"42".to_vec());
    assert_eq!(fmt_u64(1234567890), b"1234567890".to_vec());
}

#[test]
fn test_padded_offsets() {
    assert_eq!(fmt_u64_pad10(0), b"0000000000".to_vec());
    assert_eq!(fmt_u64_pad10(15), b"0000000015".to_vec());
    assert_eq!(fmt_u64_pad10(12345678901), b"12345678901".to_vec());
}

#[test]
fn test_path_style_defaults_to_center() {
    let style = PathStyle::new();
    assert!(matches!(style.horizontal_align, HorizontalAlign::Center));
}
