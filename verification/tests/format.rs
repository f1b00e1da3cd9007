use unicode_le::detect::format::{
    aliases, fallback_format, reader_key, resolve_format, supported_formats,
};

#[test]
fn every_offered_format_resolves_to_itself() {
    for format in supported_formats() {
        assert_eq!(resolve_format(Some(format), None), format, "{format}");
    }
}

#[test]
fn the_common_aliases_are_honoured() {
    for (alias, expected) in [
        ("jsonc", "json"),
        ("yml", "yaml"),
        ("tsv", "csv"),
        ("cfg", "ini"),
        ("conf", "ini"),
        ("properties", "ini"),
        ("dotenv", "env"),
    ] {
        assert_eq!(resolve_format(Some(alias), None), expected, "{alias}");
    }
}

#[test]
fn a_name_is_normalised_before_it_is_matched() {
    assert_eq!(resolve_format(Some("  JSON "), None), "json");
    assert_eq!(resolve_format(Some(".toml"), None), "toml");
}

#[test]
fn a_filename_supplies_the_format_when_none_is_named() {
    assert_eq!(resolve_format(None, Some("config.toml")), "toml");
    assert_eq!(resolve_format(None, Some("data.CSV")), "csv");
}

#[test]
fn only_the_last_segment_of_a_path_decides() {
    assert_eq!(resolve_format(None, Some("src/locales/en.json")), "json");
    assert_eq!(resolve_format(None, Some("locales.json/README")), "text");
    assert_eq!(resolve_format(None, Some("src\\config\\a.toml")), "toml");
}

#[test]
fn a_dotfile_resolves_by_its_whole_name() {
    assert_eq!(resolve_format(None, Some(".env")), "env");
    assert_eq!(resolve_format(None, Some("env")), "env");
    assert_eq!(resolve_format(None, Some("deploy/.env")), "env");
}

#[test]
fn anything_unrecognised_falls_back() {
    for name in ["markdown", "dockerfile", "", "wat"] {
        assert_eq!(resolve_format(Some(name), None), fallback_format(), "{name}");
    }
    assert_eq!(resolve_format(None, Some("README.md")), fallback_format());
    assert_eq!(resolve_format(None, Some("main.rs")), fallback_format());
    assert_eq!(resolve_format(None, Some("<stdin>")), fallback_format());
    assert_eq!(resolve_format(None, None), fallback_format());
}

#[test]
fn an_unresolved_format_defers_to_the_filename() {
    assert_eq!(resolve_format(Some("nonsense"), Some("a.toml")), "toml");
}

#[test]
fn the_offered_list_matches_the_alias_table() {
    let offered = supported_formats();
    for format in &offered {
        assert!(
            aliases().iter().any(|(_, key)| key == format),
            "{format} is offered but no alias produces it"
        );
    }
    for (_, key) in aliases() {
        assert!(offered.contains(&key), "{key} is produced but not offered");
    }
}

#[test]
fn the_fallback_is_text() {
    assert_eq!(fallback_format(), "text");
    assert_eq!(resolve_format(Some("TXT"), Some("a.json")), "json");
    assert_eq!(resolve_format(Some("..yaml"), None), "yaml");
    assert_eq!(resolve_format(None, Some("archive.tar.")), "text");
}

#[test]
fn a_tab_separated_name_resolves_to_csv_and_is_read_on_tabs() {
    assert_eq!(resolve_format(None, Some("rows.tsv")), "csv");
    assert_eq!(reader_key(None, Some("rows.tsv")), "tsv");
    assert_eq!(reader_key(Some(" TSV "), None), "tsv");
    assert_eq!(reader_key(None, Some("rows.csv")), "csv");
    assert_eq!(reader_key(Some("json"), Some("rows.tsv")), "json");
    assert_eq!(reader_key(None, Some("notes.md")), "text");
}
