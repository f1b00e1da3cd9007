use unicode_le::detect::locate::KeySpan;
use unicode_le::detect::{csv, dotenv, ini, json, toml, yaml};

fn shown(text: &str, spans: &[KeySpan]) -> Vec<(String, String)> {
    spans
        .iter()
        .map(|span| (text[span.start..span.end].trim().to_string(), span.path.clone()))
        .collect()
}

fn expect(found: Vec<(String, String)>, expected: &[(&str, &str)], text: &str) {
    let expected: Vec<(String, String)> = expected
        .iter()
        .map(|(a, b)| (a.to_string(), b.to_string()))
        .collect();
    assert_eq!(found, expected, "{text}");
}

fn ordered(spans: &[KeySpan]) {
    for pair in spans.windows(2) {
        assert!(pair[0].end <= pair[1].start, "{pair:?}");
    }
}

fn csv_keyed(text: &str, expected: &[(&str, &str)]) {
    expect(shown(text, &csv::key_spans(text, csv::COMMA)), expected, text);
}

fn env_keyed(text: &str, expected: &[(&str, &str)]) {
    expect(shown(text, &dotenv::key_spans(text)), expected, text);
}

fn ini_keyed(text: &str, expected: &[(&str, &str)]) {
    expect(shown(text, &ini::key_spans(text)), expected, text);
}

fn toml_keyed(text: &str, expected: &[(&str, &str)]) {
    expect(shown(text, &toml::key_spans(text)), expected, text);
}

fn yaml_keyed(text: &str, expected: &[(&str, &str)]) {
    expect(shown(text, &yaml::key_spans(text)), expected, text);
}

fn json_keyed(text: &str, expected: &[(&str, &str)]) {
    expect(shown(text, &json::key_spans(text)), expected, text);
}

#[test]
fn a_tab_row_is_columns_under_tab_and_one_column_under_comma() {
    let text = "id\tname\tcity\n1\tvalue\tparis\n";
    let tabbed: Vec<String> = csv::key_spans(text, csv::TAB).iter().map(|s| s.path.clone()).collect();
    assert_eq!(tabbed, ["id", "name", "city"]);
    let comma: Vec<String> = csv::key_spans(text, csv::COMMA).iter().map(|s| s.path.clone()).collect();
    assert_eq!(comma, ["id\tname\tcity"]);
}

#[test]
fn a_field_is_named_by_its_column_header() {
    csv_keyed("name,city\nAda,Paris\n", &[("Ada", "name"), ("Paris", "city")]);
}

#[test]
fn every_row_after_the_header_is_keyed() {
    csv_keyed("id\n1\n2\n", &[("1", "id"), ("2", "id")]);
}

#[test]
fn a_quoted_field_may_hold_a_comma() {
    csv_keyed(
        "name,note\nAda,\"one, two\"\n",
        &[("Ada", "name"), ("\"one, two\"", "note")],
    );
}

#[test]
fn a_column_with_no_header_name_is_indexed() {
    csv_keyed("a,\nx,y\n", &[("x", "a"), ("y", "[1]")]);
}

#[test]
fn a_header_alone_yields_nothing() {
    assert!(csv::key_spans("name,city\n", csv::COMMA).is_empty());
    assert!(csv::key_spans("", csv::COMMA).is_empty());
}

#[test]
fn blank_lines_are_not_rows() {
    csv_keyed("id\n\n1\n", &[("1", "id")]);
}

#[test]
fn csv_the_spans_are_ordered_and_do_not_overlap() {
    let spans = csv::key_spans("a,b\n1,2\n3,4\n", csv::COMMA);
    assert_eq!(spans.len(), 4);
    ordered(&spans);
}

#[test]
fn dotenv_a_value_is_named_by_its_key() {
    env_keyed("TOKEN=abc\n", &[("abc", "TOKEN")]);
}

#[test]
fn an_export_prefix_is_not_part_of_the_key() {
    env_keyed("export TOKEN=abc\n", &[("abc", "TOKEN")]);
}

#[test]
fn a_comment_line_has_no_key() {
    env_keyed("# TOKEN=1\nTOKEN=2\n", &[("2", "TOKEN")]);
}

#[test]
fn a_trailing_comment_is_cut_from_an_unquoted_value_only() {
    env_keyed("A=one two # a note\n", &[("one two", "A")]);
    env_keyed("B=\"one # two\"\n", &[("\"one # two\"", "B")]);
}

#[test]
fn a_line_with_no_equals_has_no_key() {
    assert!(dotenv::key_spans("NOT_A_PAIR\n").is_empty());
    assert!(dotenv::key_spans("=novalue\n").is_empty());
}

#[test]
fn dotenv_the_spans_are_ordered_and_do_not_overlap() {
    let spans = dotenv::key_spans("A=1\nB=2\nC=3\n");
    assert_eq!(spans.len(), 3);
    ordered(&spans);
}

#[test]
fn a_value_is_named_by_its_section_and_key() {
    ini_keyed("[service]\nid = abc\n", &[("abc", "service.id")]);
}

#[test]
fn a_key_before_any_section_is_named_alone() {
    ini_keyed("id = abc\n", &[("abc", "id")]);
}

#[test]
fn a_later_section_replaces_the_earlier_one() {
    ini_keyed("[a]\nid = 1\n[b]\nid = 2\n", &[("1", "a.id"), ("2", "b.id")]);
}

#[test]
fn both_comment_markers_are_honoured() {
    ini_keyed("; id = 1\n# id = 2\nid = 3\n", &[("3", "id")]);
}

#[test]
fn a_colon_separates_where_there_is_no_equals() {
    ini_keyed("id : abc\n", &[("abc", "id")]);
}

#[test]
fn a_url_value_is_not_split_at_its_own_colon() {
    ini_keyed("url = https://example.com\n", &[("https://example.com", "url")]);
}

#[test]
fn ini_the_spans_are_ordered_and_do_not_overlap() {
    let spans = ini::key_spans("[a]\nx = 1\ny = 2\n");
    assert_eq!(spans.len(), 2);
    ordered(&spans);
}

#[test]
fn a_value_is_named_by_its_table_and_key() {
    toml_keyed("[service]\nid = \"abc\"\n", &[("\"abc\"", "service.id")]);
}

#[test]
fn a_key_before_any_table_is_named_alone() {
    toml_keyed("id = \"abc\"\n", &[("\"abc\"", "id")]);
}

#[test]
fn an_array_of_tables_sets_the_prefix_without_an_index() {
    toml_keyed(
        "[[rows]]\nid = 1\n[[rows]]\nid = 2\n",
        &[("1", "rows.id"), ("2", "rows.id")],
    );
}

#[test]
fn a_dotted_table_header_is_kept_whole() {
    toml_keyed("[a.b.c]\nid = 1\n", &[("1", "a.b.c.id")]);
}

#[test]
fn toml_a_quoted_key_loses_its_quotes() {
    toml_keyed("\"my key\" = 1\n", &[("1", "my key")]);
}

#[test]
fn comments_have_no_key() {
    toml_keyed("# id = 1\nid = 2\n", &[("2", "id")]);
}

#[test]
fn a_single_line_array_is_covered_by_its_key() {
    toml_keyed("ids = [1, 2, 3]\n", &[("[1, 2, 3]", "ids")]);
}

#[test]
fn toml_the_spans_are_ordered_and_do_not_overlap() {
    let spans = toml::key_spans("[a]\nx = 1\ny = 2\n[b]\nz = 3\n");
    assert_eq!(spans.len(), 3);
    ordered(&spans);
}

#[test]
fn yaml_a_value_is_named_by_its_key() {
    yaml_keyed("id: abc\n", &[("abc", "id")]);
}

#[test]
fn indentation_builds_a_dotted_path() {
    yaml_keyed("a:\n  b:\n    c: x\n", &[("x", "a.b.c")]);
}

#[test]
fn a_sibling_replaces_rather_than_nests() {
    yaml_keyed("a:\n  b: x\n  c: y\n", &[("x", "a.b"), ("y", "a.c")]);
}

#[test]
fn dedenting_pops_back_to_the_outer_key() {
    yaml_keyed("a:\n  b: x\nc: y\n", &[("x", "a.b"), ("y", "c")]);
}

#[test]
fn a_sequence_of_scalars_is_indexed() {
    yaml_keyed("ids:\n  - x\n  - y\n", &[("x", "ids.[0]"), ("y", "ids.[1]")]);
}

#[test]
fn a_sequence_of_mappings_keeps_the_index_and_each_key() {
    yaml_keyed(
        "rows:\n  - id: x\n    name: y\n  - id: z\n",
        &[("x", "rows.[0].id"), ("y", "rows.[0].name"), ("z", "rows.[1].id")],
    );
}

#[test]
fn a_key_introducing_a_block_is_not_itself_a_value() {
    assert_eq!(yaml::key_spans("a:\n  b: x\n").len(), 1);
}

#[test]
fn comments_and_document_markers_are_skipped() {
    yaml_keyed("---\n# id: 1\nid: 2\n", &[("2", "id")]);
}

#[test]
fn a_colon_inside_a_value_does_not_split_the_key() {
    yaml_keyed("url: https://example.com\n", &[("https://example.com", "url")]);
}

#[test]
fn yaml_a_quoted_key_loses_its_quotes() {
    yaml_keyed("\"my key\": x\n", &[("x", "my key")]);
}

#[test]
fn yaml_the_spans_are_ordered_and_do_not_overlap() {
    let spans = yaml::key_spans("a: 1\nb:\n  - 2\n  - 3\nc: 4\n");
    assert_eq!(spans.len(), 4);
    ordered(&spans);
}

#[test]
fn a_json_value_is_named_by_the_keys_it_is_nested_under() {
    json_keyed(
        r#"{"metrics": {"headline": {"eyebrow": "Up"}}, "n": 1}"#,
        &[("\"Up\"", "metrics.headline.eyebrow"), ("1", "n")],
    );
}

#[test]
fn a_json_array_element_is_indexed() {
    json_keyed(
        r#"{"rows": [{"id": "a"}, {"id": "b"}, {"id": "c"}]}"#,
        &[("\"a\"", "rows.[0].id"), ("\"b\"", "rows.[1].id"), ("\"c\"", "rows.[2].id")],
    );
}

#[test]
fn a_json_root_scalar_has_an_empty_path() {
    json_keyed(r#""alone""#, &[("\"alone\"", "")]);
    json_keyed("[true, null]", &[("true", "[0]"), ("null", "[1]")]);
}

#[test]
fn a_json_escape_is_covered_whole() {
    let text = r#"{"a":"x\ny\u0041z"}"#;
    let escapes = json::escape_spans(text);
    let shown: Vec<&str> = escapes.iter().map(|r| &text[r.clone()]).collect();
    assert_eq!(shown, ["\\n", "\\u0041"]);
}

#[test]
fn an_escaped_quote_does_not_end_a_json_string() {
    json_keyed(r#"{"a": "say \"hi\"", "b": 2}"#, &[("\"say \\\"hi\\\"\"", "a"), ("2", "b")]);
}

#[test]
fn json_the_spans_are_ordered_and_do_not_overlap() {
    let spans = json::key_spans(r#"{"a": [1, 2, {"b": "c"}], "d": false}"#);
    assert_eq!(spans.len(), 4);
    ordered(&spans);
}
