use unicode_le::detect::encoding::{decode, first_nul, Decoded, BINARY_SNIFF_BYTES};
use unicode_le::detect::{Reason, Refusal};

fn refusal(bytes: &[u8]) -> Refusal {
    match decode(bytes) {
        Decoded::Refused(refusal) => refusal,
        Decoded::Text(text) => panic!("decoded {text:?} instead of refusing"),
    }
}

fn text(bytes: &[u8]) -> String {
    match decode(bytes) {
        Decoded::Text(text) => text.to_string(),
        Decoded::Refused(refusal) => panic!("refused: {}", refusal.detail),
    }
}

#[test]
fn ordinary_utf8_decodes() {
    assert_eq!(text(b"hello\n"), "hello\n");
    assert_eq!(text(&[]), "");
    assert_eq!(text("naïve — 日本語".as_bytes()), "naïve — 日本語");
}

#[test]
fn a_utf8_byte_order_mark_is_kept_rather_than_stripped() {
    assert_eq!(text("\u{feff}let a = 1;".as_bytes()), "\u{feff}let a = 1;");
}

#[test]
fn a_utf16_byte_order_mark_is_refused_by_name() {
    for (bytes, named) in [
        (vec![0xFF, 0xFE, b'a', 0x00], "UTF-16LE"),
        (vec![0xFE, 0xFF, 0x00, b'a'], "UTF-16BE"),
    ] {
        let refusal = refusal(&bytes);
        assert_eq!(refusal.reason, Reason::EncodingUnknown);
        assert!(refusal.detail.contains(named), "{}", refusal.detail);
    }
}

#[test]
fn a_utf32_mark_is_not_mistaken_for_a_utf16_one() {
    assert!(refusal(&[0xFF, 0xFE, 0x00, 0x00, b'a', 0, 0, 0])
        .detail
        .contains("UTF-32LE"));
    assert!(refusal(&[0x00, 0x00, 0xFE, 0xFF, 0, 0, 0, b'a'])
        .detail
        .contains("UTF-32BE"));
}

#[test]
fn the_mark_is_read_before_the_binary_sniff() {
    let utf16 = [0xFF, 0xFE, b'a', 0x00, b'b', 0x00];
    assert_eq!(refusal(&utf16).reason, Reason::EncodingUnknown);
}

#[test]
fn a_nul_byte_is_a_file_that_was_never_text() {
    let refusal = refusal(&[0x89, 0x50, 0x4E, 0x47, 0x00, 0x1A]);
    assert_eq!(refusal.reason, Reason::BinaryOrUndecodable);
    assert!(refusal.detail.contains("NUL"), "{}", refusal.detail);
}

#[test]
fn a_nul_byte_past_the_first_pages_is_not_sniffed() {
    let mut bytes = vec![b'a'; BINARY_SNIFF_BYTES];
    bytes.push(0);
    assert_eq!(first_nul(&bytes), None);
    assert_eq!(first_nul(&[b'a', 0]), Some(1));
}

#[test]
fn invalid_utf8_is_refused_with_the_byte_it_failed_at() {
    let refusal = refusal(&[b'c', b'a', b'f', 0xE9]);
    assert_eq!(refusal.reason, Reason::BinaryOrUndecodable);
    assert!(refusal.detail.contains("byte 3"), "{}", refusal.detail);
}

#[test]
fn no_refusal_offers_to_guess() {
    for bytes in [
        vec![0xFF, 0xFE, b'a', 0x00],
        vec![b'c', b'a', b'f', 0xE9],
        vec![0x00],
    ] {
        let detail = refusal(&bytes).detail;
        for word in ["latin-1", "assumed", "fell back", "probably"] {
            assert!(!detail.to_lowercase().contains(word), "{detail}");
        }
    }
}

#[test]
fn the_refusal_details_are_spelled_out_exactly() {
    assert_eq!(
        refusal(&[b'a', 0]).detail,
        "a NUL byte at byte 1: this was never a text candidate"
    );
    assert_eq!(
        refusal(&[b'c', b'a', b'f', 0xE9]).detail,
        "not valid UTF-8 at byte 3: the encoding is unknown and is not guessed"
    );
    assert_eq!(
        refusal(&[0xFE, 0xFF]).detail,
        "a UTF-16BE byte-order mark: this reads UTF-8 only, and decoding UTF-16BE as UTF-8 would invent invisible and unassigned characters that are not in the file"
    );
}
