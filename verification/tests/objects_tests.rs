use wasm_pdf::objects::{Font, PDFDocument, PDFImage, PDFPage};

fn helvetica() -> Font {
    Font::new(String::from("Helvetica"), String::from("F1"), 0)
}

fn one_page_doc() -> PDFDocument {
    let mut doc = PDFDocument::new();
    doc.add_font(helvetica());
    let mut page = PDFPage::new();
    page.set_contents(b"1 0 0 1 0 0 cm  BT /F1 12 Tf 14.4 TL ET\n");
    doc.add_page(page);
    doc
}

fn count_occurrences(haystack: &[u8], needle: &[u8]) -> usize {
    if needle.is_empty() || haystack.len() < needle.len() {
        return 0;
    }
    let mut n = 0;
    for i in 0..=haystack.len() - needle.len() {
        if &haystack[i..i + needle.len()] == needle {
            n += 1;
        }
    }
    n
}

#[test]
fn test_header_and_trailer_markers() {
    let doc = one_page_doc();
    let bytes = doc.save_document("595.27563", "841.8898").unwrap();
    assert!(bytes.starts_with(b"%PDF-1.4\n%\x93\x8C\x8B\x9E WASM-PDF library\n"));
    assert!(bytes.ends_with(b"%%EOF\n"));
}

#[test]
fn test_single_page_object_counts() {
    let doc = one_page_doc();
    let bytes = doc.save_document("595.27563", "841.8898").unwrap();
    assert_eq!(count_occurrences(&bytes, b"/Type /Page \n"), 1);
    assert_eq!(count_occurrences(&bytes, b"/Type /Pages"), 1);
    assert_eq!(count_occurrences(&bytes, b"/Type /Catalog"), 1);
    assert_eq!(count_occurrences(&bytes, b"/Type /Font"), 1);
    assert_eq!(
        count_occurrences(&bytes, b"/Filter [/ASCII85Decode /FlateDecode]"),
        1
    );
    assert_eq!(count_occurrences(&bytes, b"/BaseFont /Helvetica"), 1);
    assert_eq!(count_occurrences(&bytes, b"/MediaBox [0 0 595.27563 841.8898]"), 1);
}

fn find_from(haystack: &[u8], needle: &[u8], from: usize) -> Option<usize> {
    if haystack.len() < needle.len() {
        return None;
    }
    (from..=haystack.len() - needle.len()).find(|&i| &haystack[i..i + needle.len()] == needle)
}

#[test]
fn test_xref_offsets_point_at_objects() {
    let doc = one_page_doc();
    let bytes = doc.save_document("595.27563", "841.8898").unwrap();
    let sx = find_from(&bytes, b"startxref\n", 0).expect("startxref missing");
    let rest = &bytes[sx + 10..];
    let line: Vec<u8> = rest.iter().copied().take_while(|&b| b != b'\n').collect();
    let xref_pos: usize = String::from_utf8(line).unwrap().parse().unwrap();
    assert_eq!(&bytes[xref_pos..xref_pos + 4], b"xref");
    let table = String::from_utf8(bytes[xref_pos..].to_vec()).unwrap();
    let mut lines = table.lines();
    assert_eq!(lines.next().unwrap(), "xref");
    let count_line = lines.next().unwrap();
    let num: usize = count_line.split_whitespace().nth(1).unwrap().parse().unwrap();
    let free = lines.next().unwrap();
    assert!(free.starts_with("0000000000 65535 f"));
    for id in 1..num {
        let entry = lines.next().unwrap();
        let off: usize = entry.split_whitespace().next().unwrap().parse().unwrap();
        let expect = format!("{} 0 obj", id);
        assert_eq!(
            &bytes[off..off + expect.len()],
            expect.as_bytes(),
            "object {} not at its xref offset",
            id
        );
    }
}

#[test]
fn test_font_deduplicated_by_index() {
    let mut doc = PDFDocument::new();
    doc.add_font(helvetica());
    doc.add_font(helvetica());
    let mut page = PDFPage::new();
    page.set_contents(b"BT ET\n");
    doc.add_page(page);
    let bytes = doc.save_document("595", "842").unwrap();
    assert_eq!(count_occurrences(&bytes, b"/BaseFont /Helvetica"), 1);
}

#[test]
fn test_image_embedded_with_dimensions() {
    let mut doc = PDFDocument::new();
    doc.add_font(helvetica());
    let image_id = doc.get_image_id();
    let img = PDFImage::new(image_id, 320, 200, &[0xff, 0xd8, 0xff, 0xe0]);
    let mut page = PDFPage::new();
    page.set_contents(b"BT ET\n");
    page.set_images(vec![img]);
    doc.add_page(page);
    let bytes = doc.save_document("595", "842").unwrap();
    assert_eq!(count_occurrences(&bytes, b"/Subtype /Image"), 1);
    assert_eq!(count_occurrences(&bytes, b"/Height 200 \n/Width 320 "), 1);
    assert_eq!(count_occurrences(&bytes, b"/XObject <<\n/Im1 "), 1);
    assert_eq!(
        count_occurrences(&bytes, b"/Filter [/ASCII85Decode /DCTDecode]"),
        1
    );
}

#[test]
fn test_empty_image_fails_build() {
    let mut doc = PDFDocument::new();
    doc.add_font(helvetica());
    let img = PDFImage::new(1, 10, 10, &[]);
    let mut page = PDFPage::new();
    page.set_contents(b"BT ET\n");
    page.set_images(vec![img]);
    doc.add_page(page);
    assert!(doc.save_document("595", "842").is_err());
}

#[test]
fn test_page_number_advances() {
    let mut doc = PDFDocument::new();
    assert_eq!(doc.page_number(), 1);
    let mut page = PDFPage::new();
    page.set_contents(b"BT ET\n");
    doc.add_page(page);
    assert_eq!(doc.page_number(), 2);
}

#[test]
fn test_image_uid() {
    let img = PDFImage::new(7, 1, 1, &[1, 2, 3, 4]);
    assert_eq!(img.get_uid(), b"/Im7".to_vec());
}

#[test]
fn test_content_stream_round_trips_through_filters() {
    let doc = one_page_doc();
    let bytes = doc.save_document("595.27563", "841.8898").unwrap();
    let start = find_from(&bytes, b"/Filter [/ASCII85Decode /FlateDecode]", 0).unwrap();
    let sm = find_from(&bytes, b"stream\n", start).unwrap() + 7;
    let em = find_from(&bytes, b"~>", sm).unwrap();
    let encoded: Vec<u8> = bytes[sm..em].to_vec();
    let compressed = wasm_pdf::ascii85::decode(encoded).unwrap();
    // zlib header at the front of the compressed stream
    assert_eq!(compressed[0], 0x78);
}
