use lang_rank::strutil::{parse_u32, parse_percent, trim_str, str_eq, str_lt};
use lang_rank::canon::{normalize_alias_key, canonicalize_language, canonical_benchmark_lang,
    capitalize_word};

#[test]
fn parse_u32_collects_digits() {
    assert_eq!(parse_u32("17"), Some(17));
    assert_eq!(parse_u32(" #3."), Some(3));
    assert_eq!(parse_u32("1a2b3"), Some(123));
    assert_eq!(parse_u32("0007"), Some(7));
}

#[test]
fn parse_u32_rejects_empty_and_overflow() {
    assert_eq!(parse_u32(""), None);
    assert_eq!(parse_u32("no digits"), None);
    assert_eq!(parse_u32("4294967295"), Some(u32::MAX));
    assert_eq!(parse_u32("4294967296"), None);
}

#[test]
fn parse_percent_reads_decimals_in_millionths() {
    assert_eq!(parse_percent("12.34%"), Some(12_340_000));
    assert_eq!(parse_percent("12,34 %"), Some(12_340_000));
    assert_eq!(parse_percent("0.5"), Some(500_000));
    assert_eq!(parse_percent("5"), Some(5_000_000));
    assert_eq!(parse_percent(".25"), Some(250_000));
}

#[test]
fn parse_percent_handles_signs_and_junk() {
    assert_eq!(parse_percent("-0.31"), Some(-310_000));
    assert_eq!(parse_percent("\u{2212}1.5"), Some(-1_500_000));
    assert_eq!(parse_percent("\u{2013}2"), Some(-2_000_000));
    assert_eq!(parse_percent("+4.0"), Some(4_000_000));
    assert_eq!(parse_percent("n/a"), None);
    assert_eq!(parse_percent(""), None);
    // a minus after a digit is ignored
    assert_eq!(parse_percent("1-2"), Some(12_000_000));
}

#[test]
fn parse_percent_truncates_beyond_six_places() {
    assert_eq!(parse_percent("0.1234567"), Some(123_456));
}

#[test]
fn trim_removes_outer_whitespace() {
    assert_eq!(trim_str("  Go \t"), "Go");
    assert_eq!(trim_str(""), "");
    assert_eq!(trim_str(" \n "), "");
    assert_eq!(trim_str("a b"), "a b");
}

#[test]
fn string_order_and_equality() {
    assert!(str_lt("C", "C++"));
    assert!(str_lt("C++", "C/C++"));
    assert!(!str_lt("Go", "Go"));
    assert!(str_eq("Go", "Go"));
    assert!(!str_eq("Go", "Got"));
}

#[test]
fn alias_keys_fold_case_and_whitespace() {
    assert_eq!(normalize_alias_key("  Visual Basic "), "visualbasic");
    assert_eq!(normalize_alias_key("C++"), "c++");
    assert_eq!(normalize_alias_key("Delphi/Object Pascal"), "delphi/objectpascal");
}

#[test]
fn canonicalize_maps_aliases() {
    assert_eq!(canonicalize_language("golang"), Some("Go".to_string()));
    assert_eq!(canonicalize_language("Node.js"), Some("JavaScript".to_string()));
    assert_eq!(canonicalize_language("  C# "), Some("C#".to_string()));
    assert_eq!(canonicalize_language("gpp"), Some("C/C++".to_string()));
}

#[test]
fn canonicalize_passes_unknown_labels_trimmed() {
    assert_eq!(canonicalize_language("  Brand New Language "), Some("Brand New Language".to_string()));
}

#[test]
fn canonicalize_drops_empty_and_synthetic_labels() {
    assert_eq!(canonicalize_language(""), None);
    assert_eq!(canonicalize_language("   "), None);
    assert_eq!(canonicalize_language("vw"), None);
}

#[test]
fn benchmark_runtimes_map_to_languages() {
    assert_eq!(canonical_benchmark_lang("gcc"), Some("C/C++".to_string()));
    assert_eq!(canonical_benchmark_lang("node"), Some("JavaScript".to_string()));
    assert_eq!(canonical_benchmark_lang("vw"), None);
    // unknown runtimes are capitalised
    assert_eq!(canonical_benchmark_lang("mystery"), Some("Mystery".to_string()));
}

#[test]
fn capitalize_word_uppercases_first() {
    assert_eq!(capitalize_word("rust"), "Rust");
    assert_eq!(capitalize_word("oCaml"), "Ocaml");
    assert_eq!(capitalize_word(""), "");
}
