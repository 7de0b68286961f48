use wasm_pdf::text::{extract_links, Tag, Text, TextSpan};

#[test]
fn test_link_removal() {
    let output = extract_links("<a href='https://www.google.com'>A Link to Google</a>");
    assert_eq!(output.as_str(), "A Link to Google");
}

#[test]
fn test_link_extraction() {
    let sample_text = "<a href='https://www.microsoft.com'>Microsoft Corporation</a>. Lorem ipsum dolor sit amet, consectetur adipiscing elit. \
    <a href='https://www.google.com'>A Link to Google</a>. Aliquam maximus tincidunt nisl. <a href='https://www.yaloo.com'>A Link to Yahoo</a>. Ends here.";
    let text_parts = TextSpan::extract_spans(&sample_text);
    assert_eq!(
        text_parts[text_parts.len() - 1].text.as_str(),
        ". Ends here."
    );
}

#[test]
fn test_no_markup_single_span() {
    let parts = TextSpan::extract_spans("just a plain sentence");
    assert_eq!(parts.len(), 1);
    assert_eq!(parts[0].text.as_str(), "just a plain sentence");
    assert!(matches!(parts[0].tag, Tag::Span));
}

#[test]
fn test_bold_extraction() {
    let parts = TextSpan::extract_spans("Aliquam <b>maximus</b> tincidunt");
    assert_eq!(parts.len(), 3);
    assert_eq!(parts[0].text.as_str(), "Aliquam ");
    assert_eq!(parts[1].text.as_str(), "maximus");
    assert!(matches!(parts[1].tag, Tag::Bold));
    assert_eq!(parts[2].text.as_str(), " tincidunt");
}

#[test]
fn test_link_url_captured() {
    let parts = TextSpan::extract_spans("<a href='https://example.com'>Link</a>");
    assert_eq!(parts.len(), 1);
    assert_eq!(parts[0].text.as_str(), "Link");
    match &parts[0].tag {
        Tag::Link { url } => assert_eq!(url.as_str(), "https://example.com"),
        _ => panic!("expected a link tag"),
    }
}

#[test]
fn test_unclosed_markup_stays_plain() {
    let parts = TextSpan::extract_spans("<a href='x'>no close");
    assert_eq!(parts.len(), 1);
    assert_eq!(parts[0].text.as_str(), "<a href='x'>no close");
}

#[test]
fn test_encode_text_operators() {
    let out = TextSpan::encode_text("Hi");
    assert_eq!(out, b"(Hi) Tj ".to_vec());
}

#[test]
fn test_encoded_spans_concatenate() {
    let spans = vec![
        TextSpan::new("a", Tag::Span),
        TextSpan::new("b", Tag::Bold),
    ];
    assert_eq!(TextSpan::encoded_spans(&spans), b"(a) Tj (b) Tj ".to_vec());
}

#[test]
fn test_get_bullet_text() {
    assert_eq!(Text::get_bullet_text("-"), b"(-) Tj ".to_vec());
}

#[test]
fn test_get_length_counts_characters() {
    let sp = TextSpan::new("Tämä", Tag::Span);
    assert_eq!(sp.get_length(), 4);
}
