use unicode_le::cli::{fail_on, fail_on_values, flags, parse, plural, values, Arguments, USAGE};
use unicode_le::detect::{kinds, Kind};
use unicode_le::scan::FailOn;

fn strings(args: &[&str]) -> Vec<String> {
    args.iter().map(|arg| arg.to_string()).collect()
}

fn parsed(args: &[&str]) -> Result<Arguments, String> {
    parse(&strings(args))
}

#[test]
fn every_documented_flag_is_parsed_and_the_reverse() {
    let mut documented: Vec<&str> = USAGE
        .split_whitespace()
        .filter(|word| word.starts_with("--"))
        .map(|word| word.trim_end_matches([',', '.', ':', ';']))
        .filter(|word| !matches!(*word, "--version" | "--help"))
        .collect();
    documented.sort_unstable();
    documented.dedup();

    let mut implemented = flags();
    implemented.sort_unstable();
    assert_eq!(documented, implemented);
}

#[test]
fn the_parser_accepts_every_flag_it_lists() {
    for flag in flags() {
        let args: Vec<&str> = match flag {
            "--kind" => vec![flag, "bidi", "x"],
            "--script" => vec![flag, "Han", "x"],
            "--fail-on" => vec![flag, "any", "x"],
            "--stdin" => vec![flag],
            _ => vec![flag, "x"],
        };
        assert!(parsed(&args).is_ok(), "{flag}");
    }
}

#[test]
fn every_kind_is_documented_and_accepted() {
    for kind in kinds() {
        let short = kind.short();
        assert!(USAGE.contains(short), "{short} is undocumented");
        let arguments = parsed(&["--kind", short, "x"]).expect(short);
        assert_eq!(arguments.detect.kinds, [kind]);
    }
}

#[test]
fn every_documented_fail_on_value_is_accepted() {
    for value in fail_on_values() {
        assert!(fail_on(value).is_ok(), "{value}");
        assert!(USAGE.contains(value), "{value} is undocumented");
    }
}

#[test]
fn kinds_and_scripts_may_be_listed_or_repeated() {
    let listed = parsed(&["--kind", "bidi,invisible", "x"]).expect("parses");
    assert_eq!(listed.detect.kinds, [Kind::BidiControl, Kind::Invisible]);

    let repeated =
        parsed(&["--script", "Han", "--script", "Cyrillic", "x"]).expect("parses");
    assert_eq!(repeated.detect.expected_scripts.len(), 2);
}

#[test]
fn an_unknown_flag_is_refused_rather_than_ignored() {
    let error = parsed(&["--kinds", "x"]).expect_err("a refusal");
    assert!(error.contains("--kinds"), "{error}");
}

#[test]
fn a_flag_with_no_value_is_refused() {
    for flag in ["--kind", "--script", "--fail-on"] {
        assert!(parsed(&[flag]).is_err(), "{flag}");
        assert!(parsed(&[flag, ""]).is_err(), "{flag} empty");
    }
}

#[test]
fn an_unknown_kind_script_or_threshold_is_refused_by_name() {
    assert!(parsed(&["--kind", "homoglyph", "x"])
        .expect_err("a refusal")
        .contains("homoglyph"));
    assert!(parsed(&["--script", "Klingon", "x"])
        .expect_err("a refusal")
        .contains("Klingon"));
    assert!(fail_on("everything")
        .expect_err("a refusal")
        .contains("everything"));
}

#[test]
fn naming_nothing_is_refused() {
    assert!(parsed(&[]).is_err());
}

#[test]
fn stdin_and_file_arguments_together_are_refused() {
    assert!(parsed(&["--stdin", "x"]).is_err());
}

#[test]
fn the_defaults_are_every_kind_no_script_and_fail_on_anything() {
    let arguments = parsed(&["x"]).expect("parses");
    assert!(arguments.detect.kinds.is_empty());
    assert!(arguments.detect.expected_scripts.is_empty());
    assert_eq!(arguments.fail_on, FailOn::Any);
    assert!(!arguments.strict);
    assert_eq!(arguments.inputs, ["x"]);
    assert!(!arguments.walk.hidden);
    assert!(arguments.walk.respect_ignore);
}

#[test]
fn cli_no_flag_offers_to_change_a_file() {
    for attempt in ["--fix", "--write", "--normalize", "--nfc", "--strip"] {
        assert!(parsed(&[attempt, "x"]).is_err(), "{attempt} was accepted");
    }
}

#[test]
fn the_usage_text_is_ascii_because_help_prints_it_unescaped() {
    assert!(USAGE.is_ascii());
}

#[test]
fn the_usage_text_states_what_it_will_not_do() {
    assert!(USAGE.contains("never rewrites"), "the non-goal is unstated");
    assert!(
        USAGE.contains("never the characters"),
        "the report-safety rule is unstated"
    );
    for code in ["0", "1", "2"] {
        assert!(USAGE.contains(code), "exit code {code} is undocumented");
    }
}

#[test]
fn a_value_list_is_split_on_commas_and_trimmed() {
    assert_eq!(
        values(Some(" bidi , invisible"), "--kind").expect("values"),
        ["bidi", "invisible"]
    );
    let error = values(None, "--kind").expect_err("a refusal");
    assert!(error.contains("--kind"), "{error}");
    assert!(values(Some(" , "), "--script").is_err());
}

#[test]
fn the_other_flags_set_what_they_name() {
    let arguments = parsed(&["--strict", "--hidden", "--no-ignore", "--fail-on", "bidi", "a", "b"])
        .expect("parses");
    assert!(arguments.strict);
    assert!(arguments.walk.hidden);
    assert!(!arguments.walk.respect_ignore);
    assert_eq!(arguments.fail_on, FailOn::Bidi);
    assert_eq!(arguments.inputs, ["a", "b"]);
    let stdin = parsed(&["--stdin"]).expect("parses");
    assert!(stdin.stdin);
    assert!(stdin.inputs.is_empty());
}

#[test]
fn a_count_is_spelled_with_its_noun() {
    assert_eq!(plural(1, "file", "files"), "1 file");
    assert_eq!(plural(0, "file", "files"), "0 files");
    assert_eq!(plural(12, "finding", "findings"), "12 findings");
}
