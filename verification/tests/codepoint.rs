use unicode_le::detect::codepoint::{render, render_each};

#[test]
fn the_spelling_is_the_one_unicode_documents_use() {
    assert_eq!(render('a'), "U+0061");
    assert_eq!(render('\u{202e}'), "U+202E");
    assert_eq!(render('\u{ad}'), "U+00AD");
}

#[test]
fn an_astral_character_keeps_all_its_digits() {
    assert_eq!(render('\u{1d41a}'), "U+1D41A");
    assert_eq!(render('\u{10fffd}'), "U+10FFFD");
}

#[test]
fn nothing_rendered_carries_the_character_it_describes() {
    for hazard in ['\u{202e}', '\u{200b}', '\u{feff}', '\u{430}'] {
        let rendered = render(hazard);
        assert!(rendered.is_ascii(), "{rendered}");
        assert!(!rendered.contains(hazard), "{rendered}");
    }
}

#[test]
fn a_sequence_renders_in_order() {
    assert_eq!(render_each(&['a', '\u{202e}']), ["U+0061", "U+202E"]);
    assert!(render_each(&[]).is_empty());
}

#[test]
fn the_smallest_codepoint_is_padded_to_four_digits() {
    assert_eq!(render('\u{0}'), "U+0000");
    assert_eq!(render('\u{FFFF}'), "U+FFFF");
    assert_eq!(render('\u{10000}'), "U+10000");
}
