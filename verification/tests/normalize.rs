use unicode_le::detect::normalize::{first_divergence, scan};
use unicode_le::detect::{Kind, Severity};

#[test]
fn composed_text_is_not_a_finding() {
    assert!(scan("café\n").is_empty());
    assert!(scan("plain ascii\n").is_empty());
    assert!(scan("").is_empty());
    assert!(scan("日本語 Привет\n").is_empty());
}

#[test]
fn a_decomposed_line_names_the_form_and_the_sequence() {
    let found = scan("cafe\u{301}\n");
    assert_eq!(found.len(), 1);
    assert_eq!(found[0].kind, Kind::NonNfc);
    assert_eq!(found[0].severity, Severity::Low);
    assert!(found[0].detail.contains("NFD"), "{}", found[0].detail);
    assert_eq!(found[0].codepoints, ["U+0065", "U+0301"]);
    assert_eq!(found[0].offset, 3, "the base letter, not the mark");
}

#[test]
fn a_mixed_line_is_named_as_neither() {
    let found = scan("café + e\u{301}\n");
    assert_eq!(found.len(), 1);
    assert!(found[0].detail.contains("neither"), "{}", found[0].detail);
}

#[test]
fn each_line_is_judged_on_its_own() {
    let found = scan("cafe\u{301}\nclean\nre\u{301}sume\u{301}\n");
    assert_eq!(found.len(), 2);
    assert_eq!(found[0].offset, 3);
    assert_eq!(found[1].offset, 14);
}

#[test]
fn the_last_line_needs_no_newline() {
    assert_eq!(scan("cafe\u{301}").len(), 1);
}

#[test]
fn decomposed_hangul_is_found() {
    let found = scan("\u{1100}\u{1161}\n");
    assert_eq!(found.len(), 1);
    assert_eq!(found[0].codepoints, ["U+1100"]);
}

#[test]
fn nothing_is_rewritten() {
    let content = "cafe\u{301}\n";
    let before = content.to_string();
    let _ = scan(content);
    assert_eq!(content, before);
}

#[test]
fn the_divergence_is_a_byte_offset_and_a_combining_run() {
    let line: Vec<char> = "xé\u{1100}\u{1161}".chars().collect();
    assert_eq!(first_divergence(&line), (3, vec!['\u{1100}']));
    let line: Vec<char> = "e\u{301}\u{323}!".chars().collect();
    assert_eq!(first_divergence(&line), (0, vec!['e', '\u{301}', '\u{323}']));
    let clean: Vec<char> = "plain".chars().collect();
    assert_eq!(first_divergence(&clean), (0, Vec::new()));
}

#[test]
fn the_detail_is_spelled_out() {
    let found = scan("cafe\u{301}");
    assert_eq!(
        found[0].detail,
        "this line is in NFD, not NFC: it compares unequal, hashes differently and indexes differently from the same text written in NFC"
    );
    assert!(found[0].scripts.is_empty());
    assert!(found[0].resembles.is_empty());
}
