use unicode_le::detect::locate::escape_spans;
use unicode_le::detect::scripts::{ascii_lookalike, context, parse_script, scan, words};
use unicode_le::detect::{Kind, Reason};
use unicode_script::Script;

fn kinds(content: &str) -> Vec<Kind> {
    scan(content, &[], &[]).into_iter().map(|draft| draft.kind).collect()
}

fn confusables(content: &str) -> usize {
    kinds(content).iter().filter(|kind| **kind == Kind::Confusable).count()
}

fn ids(scripts: &[Script]) -> Vec<u8> {
    scripts.iter().map(|script| *script as u8).collect()
}

fn expected(items: &[(usize, &str)]) -> Vec<(usize, String)> {
    items.iter().map(|(offset, word)| (*offset, word.to_string())).collect()
}

#[test]
fn ordinary_latin_text_yields_nothing() {
    assert!(kinds("const paypal = require('paypal');").is_empty());
    assert!(kinds("café naïve Ærø Łódź İstanbul Đà Nẵng").is_empty());
    assert!(kinds("").is_empty());
}

#[test]
fn text_that_is_consistently_one_non_latin_script_yields_nothing() {
    for content in [
        "Привет мир",
        "Καλημέρα κόσμε",
        "你好世界",
        "こんにちは世界です",
        "안녕하세요 세계",
        "مرحبا بالعالم",
        "שלום עולם",
        "नमस्ते दुनिया",
        "สวัสดีชาวโลก",
    ] {
        assert!(kinds(content).is_empty(), "{content}");
    }
}

#[test]
fn japanese_and_korean_are_single_script_by_augmentation() {
    assert!(kinds("日本語テキストです").is_empty());
    assert!(kinds("한국어와漢字").is_empty());
}

#[test]
fn a_cyrillic_letter_in_a_latin_word_is_found_twice() {
    let found = scan("const p\u{430}ypal = 1;", &[], &[]);
    assert_eq!(
        found.iter().map(|d| d.kind).collect::<Vec<_>>(),
        [Kind::MixedScript, Kind::Confusable]
    );
    assert_eq!(found[0].scripts, ["Cyrillic", "Latin"]);
    assert_eq!(found[1].codepoints, ["U+0430"]);
    assert_eq!(found[1].resembles, ["U+0061"]);
    assert_eq!(found[1].scripts, ["Cyrillic"]);
    assert_eq!(found[1].offset, 7);
}

#[test]
fn a_greek_letter_in_a_latin_word_is_found() {
    let found = scan("l\u{3bf}gin", &[], &[]);
    assert_eq!(found[0].kind, Kind::MixedScript);
    assert_eq!(found[1].resembles, ["U+006F"]);
}

#[test]
fn a_full_width_letter_is_confusable_without_any_mixing() {
    let found = scan("\u{FF26}\u{FF29}\u{FF2C}\u{FF25}", &[], &[]);
    assert_eq!(found.len(), 4);
    assert!(found.iter().all(|d| d.kind == Kind::Confusable));
    assert_eq!(found[0].codepoints, ["U+FF26"]);
    assert_eq!(found[0].resembles, ["U+0046"]);
}

#[test]
fn a_mathematical_letter_is_confusable() {
    let found = scan("\u{1d41a}dmin", &[], &[]);
    assert_eq!(found.len(), 1);
    assert_eq!(found[0].kind, Kind::Confusable);
    assert_eq!(found[0].resembles, ["U+0061"]);
}

#[test]
fn ordinals_and_exponents_are_not_confusable() {
    assert_eq!(confusables("1\u{00AA} 2\u{00BA} 5 m\u{00B2} H\u{2099}"), 0);
}

#[test]
fn a_multi_character_fold_is_not_confusable() {
    assert_eq!(ascii_lookalike('\u{FB01}'), None, "the fi ligature");
    assert_eq!(ascii_lookalike('\u{216B}'), None, "roman numeral twelve");
    assert_eq!(ascii_lookalike('\u{FF26}'), Some('F'));
    assert_eq!(ascii_lookalike('a'), None, "already ascii");
    assert_eq!(ascii_lookalike('\u{430}'), None, "not a compatibility form");
}

#[test]
fn words_split_on_punctuation_and_keep_identifiers_whole() {
    assert_eq!(
        words("let snake_case_2 = f(x);", &[]),
        expected(&[(0, "let"), (4, "snake_case_2"), (19, "f"), (21, "x")])
    );
}

#[test]
fn a_combining_mark_stays_in_its_word() {
    assert_eq!(
        words("cafe\u{301} x", &[]),
        expected(&[(0, "cafe\u{301}"), (7, "x")])
    );
}

#[test]
fn latin_mixed_with_a_declared_script_is_a_translation() {
    let content = "CSVストリーミングの切り替え";
    assert_eq!(kinds(content), [Kind::MixedScript, Kind::Confusable]);
    assert!(scan(
        content,
        &ids(&[Script::Han, Script::Hiragana, Script::Katakana]),
        &[]
    )
    .is_empty());
}

#[test]
fn declaring_one_script_does_not_excuse_another() {
    let found = scan("設定 p\u{430}ypal", &ids(&[Script::Han]), &[]);
    assert_eq!(
        found.iter().map(|draft| draft.kind).collect::<Vec<_>>(),
        [Kind::MixedScript, Kind::Confusable]
    );
    assert_eq!(found[1].codepoints, ["U+0430"]);
}

#[test]
fn a_declared_script_does_not_hide_a_compatibility_form() {
    assert_eq!(confusables("\u{FF26}\u{FF29}\u{FF2C}\u{FF25}"), 4);
    assert_eq!(
        scan("\u{FF26}\u{FF29}\u{FF2C}\u{FF25}", &ids(&[Script::Han]), &[]).len(),
        4
    );
}

#[test]
fn an_escape_sequence_abutting_another_script_is_reported_as_written() {
    let found = kinds(r"Hello\nПривет");
    assert_eq!(found[0], Kind::MixedScript);
    assert!(found[1..].iter().all(|kind| *kind == Kind::Confusable));
    assert!(kinds(r"Hello\n Привет").is_empty());
}

#[test]
fn an_escape_sequence_in_a_json_string_is_not_word_material() {
    let content = r#"{"greeting":"Hello\nПривет"}"#;
    let escapes = escape_spans(content, "json");
    assert_eq!(escapes.len(), 1, "the reader found no escape");
    assert!(
        scan(content, &[], &escapes).is_empty(),
        "the escape still glued two scripts together"
    );
    assert!(!scan(content, &[], &[]).is_empty());
}

#[test]
fn a_unicode_escape_breaks_a_word_across_all_six_characters() {
    let content = r#"{"a":"Hello\u0041Привет"}"#;
    let escapes = escape_spans(content, "json");
    assert!(scan(content, &[], &escapes).is_empty(), "{escapes:?}");
}

#[test]
fn an_escape_does_not_hide_the_words_around_it() {
    let content = r#"{"a":"one\ntwo p\u{430}ypal"}"#.replace("\\u{430}", "\u{430}");
    let escapes = escape_spans(&content, "json");
    assert_eq!(
        scan(&content, &[], &escapes)
            .into_iter()
            .map(|draft| draft.kind)
            .collect::<Vec<_>>(),
        [Kind::MixedScript, Kind::Confusable]
    );
}

#[test]
fn a_latin_file_is_judged_rather_than_refused() {
    assert!(context("const total = 1;", &[]).is_none());
    assert!(context("café naïve", &[]).is_none());
    assert!(context("", &[]).is_none());
}

#[test]
fn a_single_foreign_word_does_not_refuse_the_file() {
    let mostly_english = format!("{} Привет", "the quick brown fox ".repeat(20));
    assert!(context(&mostly_english, &[]).is_none());
}

#[test]
fn a_file_written_in_another_script_is_refused_by_name() {
    let refusal = context("ключ: значение\nдругой: текст", &[]).expect("a refusal");
    assert_eq!(refusal.reason, Reason::IntentionalScriptContext);
    assert!(refusal.detail.contains("Cyrillic"), "{}", refusal.detail);
    assert!(refusal.detail.contains("Every other check did run"));
}

#[test]
fn declaring_the_script_lifts_the_refusal() {
    let content = "ключ: значение\nдругой: текст";
    assert!(context(content, &ids(&[Script::Cyrillic])).is_none());
    assert!(
        context(content, &ids(&[Script::Han])).is_some(),
        "declaring a different script is not a declaration for this one"
    );
}

fn japanese_with_a_trace_of_cyrillic() -> String {
    format!("{} Привет", "これは日本語のテキストです。".repeat(8))
}

#[test]
fn the_share_is_measured_over_the_undeclared_scripts_only() {
    let content = japanese_with_a_trace_of_cyrillic();
    assert!(
        context(
            &content,
            &ids(&[Script::Han, Script::Hiragana, Script::Katakana])
        )
        .is_none(),
        "a file that is 6% undeclared was refused as though it were 98%"
    );
    let refusal = context(&content, &[]).expect("a refusal");
    let share: usize = refusal
        .detail
        .split('%')
        .next()
        .and_then(|number| number.parse().ok())
        .expect("a leading percentage");
    assert!(share > 90, "{}", refusal.detail);
    assert!(refusal.detail.contains("Cyrillic"), "{}", refusal.detail);
    assert!(refusal.detail.contains("Hiragana"), "{}", refusal.detail);
}

#[test]
fn a_declared_file_is_judged_and_its_homoglyph_is_still_found() {
    let content = format!(
        "{} const p\u{430}ypal = 1;",
        "これは日本語のテキストです。".repeat(8)
    );
    let expected = ids(&[Script::Han, Script::Hiragana, Script::Katakana]);
    assert!(context(&content, &expected).is_none(), "still refused");
    assert_eq!(
        scan(&content, &expected, &[])
            .into_iter()
            .map(|draft| draft.kind)
            .collect::<Vec<_>>(),
        [Kind::MixedScript, Kind::Confusable]
    );
}

#[test]
fn the_refusal_says_whether_a_script_was_declared() {
    let content = "ключ: значение\nдругой: текст";
    let undeclared = context(content, &[]).expect("a refusal");
    assert!(
        undeclared.detail.contains("no expected script was declared"),
        "{}",
        undeclared.detail
    );
    let declared = context(content, &ids(&[Script::Han])).expect("a refusal");
    assert!(
        !declared.detail.contains("no expected script was declared"),
        "{}",
        declared.detail
    );
    assert!(declared.detail.contains("none of those"), "{}", declared.detail);
    assert!(declared.detail.is_ascii(), "{}", declared.detail);
}

#[test]
fn the_refusal_names_no_flag() {
    let refusal = context("你好世界你好世界", &[]).expect("a refusal");
    assert!(!refusal.detail.contains("--"), "{}", refusal.detail);
}

#[test]
fn a_script_is_named_by_full_name_or_tag_in_any_case() {
    for tag in ["Han", "han", "HAN", "Hani", "hani"] {
        assert_eq!(parse_script(tag).expect(tag), Script::Han as u8);
    }
    assert_eq!(parse_script("cyrillic").expect("Cyrillic"), Script::Cyrillic as u8);
    assert_eq!(
        parse_script("caucasian-albanian").expect("a script"),
        Script::Caucasian_Albanian as u8
    );
}

#[test]
fn an_unknown_script_is_refused_by_name() {
    let error = parse_script("Klingon").expect_err("a refusal");
    assert!(error.contains("Klingon"), "{error}");
}

#[test]
fn the_placeholder_script_values_are_refused() {
    for tag in ["Common", "Inherited", "Unknown"] {
        assert!(parse_script(tag).is_err(), "{tag}");
    }
}

#[test]
fn no_draft_carries_the_text_it_reports() {
    for content in ["p\u{430}ypal", "\u{FF26}\u{FF29}", "\u{1d41a}dmin"] {
        let rendered = format!("{:?}", scan(content, &[], &[]));
        for character in content.chars().filter(|c| !c.is_ascii()) {
            assert!(!rendered.contains(character), "{rendered}");
        }
    }
}

#[test]
fn declaring_more_scripts_never_refuses_a_judged_file() {
    let content = japanese_with_a_trace_of_cyrillic();
    let three = ids(&[Script::Han, Script::Hiragana, Script::Katakana]);
    assert!(context(&content, &three).is_none());
    let four = ids(&[Script::Han, Script::Hiragana, Script::Katakana, Script::Cyrillic]);
    assert!(context(&content, &four).is_none());
    assert!(context("const total = 1;", &ids(&[Script::Han])).is_none());
}
