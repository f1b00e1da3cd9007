use unicode_script::{Script, UnicodeScript};
use unicode_le::detect::characters::{
    bidi_controls, classify, in_private_use, invisibles, named, scan, unusual_spaces,
};
use unicode_le::detect::codepoint::render;
use unicode_le::detect::{Kind, Severity};

fn kinds(content: &str) -> Vec<Kind> {
    scan(content).into_iter().map(|draft| draft.kind).collect()
}

#[test]
fn ordinary_text_yields_nothing() {
    assert!(kinds("let total = 1 + 2; // fine\n").is_empty());
    assert!(kinds("").is_empty());
    assert!(kinds("café Привет 日本語").is_empty());
}

#[test]
fn every_bidi_control_is_found_and_is_high() {
    for (character, _) in bidi_controls() {
        let found = scan(&format!("a{character}b"));
        assert_eq!(found.len(), 1, "{}", render(character));
        assert_eq!(found[0].kind, Kind::BidiControl);
        assert_eq!(found[0].severity, Severity::High);
        assert_eq!(found[0].offset, 1);
    }
}

#[test]
fn every_invisible_is_found_and_is_medium() {
    for (character, _) in invisibles() {
        let found = scan(&format!("a{character}b"));
        assert_eq!(found.len(), 1, "{}", render(character));
        assert_eq!(found[0].kind, Kind::Invisible);
        assert_eq!(found[0].severity, Severity::Medium);
    }
}

#[test]
fn every_unusual_space_is_found_and_is_low() {
    for (character, _) in unusual_spaces() {
        let found = scan(&format!("a{character}b"));
        assert_eq!(found.len(), 1, "{}", render(character));
        assert_eq!(found[0].kind, Kind::UnusualWhitespace);
        assert_eq!(found[0].severity, Severity::Low);
    }
}

#[test]
fn a_leading_byte_order_mark_is_the_encoding_and_not_a_finding() {
    assert!(kinds("\u{FEFF}let a = 1;").is_empty());
    assert_eq!(kinds("let a = \u{FEFF}1;"), [Kind::Invisible]);
}

#[test]
fn the_script_table_is_what_knows_a_codepoint_is_unassigned() {
    assert_eq!('\u{0378}'.script(), Script::Unknown);
    assert_eq!('\u{E000}'.script(), Script::Unknown);
    assert_eq!('a'.script(), Script::Latin);
    assert_eq!('\u{202E}'.script(), Script::Common);
    assert_eq!(Script::Unknown as u8, unicode_le::unicode::SCRIPT_UNKNOWN);
    assert_eq!(Script::Latin as u8, unicode_le::unicode::SCRIPT_LATIN);
    assert_eq!(Script::Common as u8, unicode_le::unicode::SCRIPT_COMMON);
    assert_eq!(Script::Inherited as u8, unicode_le::unicode::SCRIPT_INHERITED);
}

#[test]
fn private_use_and_unassigned_are_one_kind_and_two_reasons() {
    let private = scan("\u{E000}");
    assert_eq!(private[0].kind, Kind::UnassignedOrPrivateUse);
    assert!(private[0].detail.contains("private-use"));

    let unassigned = scan("\u{0378}");
    assert_eq!(unassigned[0].kind, Kind::UnassignedOrPrivateUse);
    assert!(unassigned[0].detail.contains("not assigned"));
}

#[test]
fn all_three_private_use_areas_are_covered() {
    for character in ['\u{E000}', '\u{F8FF}', '\u{F0000}', '\u{10FFFD}'] {
        assert!(in_private_use(character), "{}", render(character));
    }
    assert!(!in_private_use('\u{FFFF}'));
    assert!(!in_private_use('a'));
}

#[test]
fn the_offset_is_a_byte_offset_into_the_document() {
    let found = scan("é日\u{202E}");
    assert_eq!(found[0].offset, 5);
}

#[test]
fn no_draft_carries_the_character_it_reports() {
    for (character, _) in bidi_controls().into_iter().chain(invisibles()) {
        let found = scan(&format!("a{character}b"));
        let rendered = format!("{found:?}");
        assert!(!rendered.contains(character), "{rendered}");
    }
}

#[test]
fn the_tables_do_not_overlap() {
    let mut all: Vec<char> = bidi_controls()
        .into_iter()
        .chain(invisibles())
        .chain(unusual_spaces())
        .map(|(character, _)| character)
        .collect();
    let total = all.len();
    all.sort_unstable();
    all.dedup();
    assert_eq!(all.len(), total, "a character is listed twice");
}

#[test]
fn every_table_entry_classifies() {
    for (character, name) in bidi_controls()
        .into_iter()
        .chain(invisibles())
        .chain(unusual_spaces())
    {
        let (_, _, detail) = classify(character).expect(name);
        assert!(detail.starts_with(name), "{detail}");
    }
}

#[test]
fn a_table_names_what_it_lists_and_nothing_else() {
    let table = bidi_controls();
    assert_eq!(named(&table, '\u{202E}'), Some("right-to-left override"));
    assert_eq!(named(&table, 'a'), None);
    assert_eq!(named(&[], '\u{202E}'), None);
}

#[test]
fn the_unassigned_detail_names_the_unicode_version() {
    let found = scan("\u{0378}");
    assert_eq!(
        found[0].detail,
        "not assigned in Unicode 18.0.0: no renderer, no collation and no agreed meaning"
    );
    assert_eq!(found[0].scripts, ["Unknown"]);
    assert_eq!(found[0].codepoints, ["U+0378"]);
}
