use cape::record::WatermarkPayload;
use cape::watermark::{embed, extract, WatermarkError};

#[test]
fn round_trip() {
    let p = WatermarkPayload([7; 32]);
    assert_eq!(extract(&embed(b"memo", p).unwrap()), Some(p));
}

#[test]
fn round_trip_over_many_texts_and_payloads() {
    let texts: Vec<String> = vec![
        String::new(),
        "a".to_string(),
        "hello world\n".to_string(),
        "line one\nline two\n".repeat(20),
        "Zürich – naïve café ✓ 漢字".to_string(),
        "0123456789".repeat(100),
    ];
    for (n, text) in texts.iter().enumerate() {
        for seed in 0u8..8 {
            let mut bytes = [0u8; 32];
            for (i, b) in bytes.iter_mut().enumerate() {
                *b = (i as u8).wrapping_mul(31).wrapping_add(seed.wrapping_mul(97)).wrapping_add(n as u8);
            }
            let p = WatermarkPayload(bytes);
            let marked = embed(text.as_bytes(), p).unwrap();
            assert_eq!(extract(&marked), Some(p));
        }
    }
}

#[test]
fn embed_appends_exact_frame() {
    let mut payload = [0u8; 32];
    payload[0] = 0b1000_0001;
    let marked = embed(b"x", WatermarkPayload(payload)).unwrap();
    assert_eq!(marked.len(), 1 + 9 + 256 * 3 + 9);
    assert_eq!(&marked[..1], b"x");
    assert_eq!(&marked[1..10], "\u{2063}\u{2063}\u{2063}".as_bytes());
    assert_eq!(&marked[10..13], "\u{200c}".as_bytes());
    assert_eq!(&marked[13..16], "\u{200b}".as_bytes());
    assert_eq!(&marked[31..34], "\u{200c}".as_bytes());
    assert_eq!(&marked[34..37], "\u{200b}".as_bytes());
    assert_eq!(&marked[marked.len() - 9..], "\u{2064}\u{2064}\u{2064}".as_bytes());
    let text = std::str::from_utf8(&marked).unwrap();
    assert_eq!(text.chars().count(), 1 + 3 + 256 + 3);
}

#[test]
fn embed_rejects_non_utf8() {
    assert_eq!(embed(&[0xff, 0xfe], WatermarkPayload([1; 32])), Err(WatermarkError::NonUtf8));
}

#[test]
fn extract_needs_utf8_and_a_frame() {
    assert_eq!(extract(b"plain text"), None);
    let mut marked = embed(b"memo", WatermarkPayload([3; 32])).unwrap();
    marked.push(0xff);
    assert_eq!(extract(&marked), None);
}

#[test]
fn extract_rejects_damaged_bits() {
    let marked = embed(b"memo", WatermarkPayload([9; 32])).unwrap();
    let text = String::from_utf8(marked).unwrap();
    let shortened = text.replacen("\u{200b}", "", 1);
    assert_eq!(extract(shortened.as_bytes()), None);
    let replaced = text.replacen("\u{200b}", "a", 1);
    assert_eq!(extract(replaced.as_bytes()), None);
}

#[test]
fn extract_reads_the_last_frame() {
    let first = embed(b"memo", WatermarkPayload([1; 32])).unwrap();
    let second = embed(&first, WatermarkPayload([2; 32])).unwrap();
    assert_eq!(extract(&second), Some(WatermarkPayload([2; 32])));
}

#[test]
fn text_after_the_frame_keeps_the_payload() {
    let p = WatermarkPayload([0xa5; 32]);
    let mut doc = embed("report body\n".as_bytes(), p).unwrap();
    doc.extend_from_slice("\n-- appended note ✓".as_bytes());
    assert_eq!(extract(&doc), Some(p));
}

#[test]
fn accepted_document_is_marked_text_plus_suffix() {
    let p = WatermarkPayload([0x3c; 32]);
    let marked = embed("prefix".as_bytes(), p).unwrap();
    let mut doc = marked.clone();
    doc.extend_from_slice(b" tail");
    assert_eq!(extract(&doc), Some(p));
    assert_eq!(&doc[..marked.len()], &embed(&doc[..6], p).unwrap()[..]);
}
