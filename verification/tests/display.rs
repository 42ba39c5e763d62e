use transitive_frontier::resolve::{parse_output_fmt, OutputFmt};
use transitive_frontier::text::{display_name, make_display_pair, str_contains, str_eq};

#[test]
fn display_name_replaces_underscores_with_hyphens() {
    assert_eq!(display_name("my_tool_kit"), "my-tool-kit");
    assert_eq!(display_name("already-kebab"), "already-kebab");
    assert_eq!(display_name(""), "");
    assert_eq!(display_name("_"), "-");
}

#[test]
fn display_pair_joins_name_and_version_with_a_space() {
    assert_eq!(make_display_pair("serde", "1.0.0"), "serde 1.0.0");
    assert_eq!(make_display_pair("", ""), " ");
}

#[test]
fn containment_is_case_sensitive_substring() {
    assert!(str_contains("abcdef", "cde"));
    assert!(str_contains("abcdef", ""));
    assert!(str_contains("abcdef", "abcdef"));
    assert!(!str_contains("abcdef", "CDE"));
    assert!(!str_contains("abc", "abcd"));
    assert!(!str_contains("", "a"));
    assert!(str_contains("", ""));
}

#[test]
fn str_eq_compares_whole_strings() {
    assert!(str_eq("alpha", "alpha"));
    assert!(!str_eq("alpha", "alph"));
    assert!(!str_eq("alpha", "Alpha"));
    assert!(str_eq("", ""));
}

#[test]
fn output_format_parses_known_names() {
    assert_eq!(parse_output_fmt("toml"), Ok(OutputFmt::TOML));
    assert_eq!(parse_output_fmt("json"), Ok(OutputFmt::JSON));
    assert_eq!(parse_output_fmt("html"), Ok(OutputFmt::HTML));
}

#[test]
fn output_format_rejects_anything_else() {
    assert_eq!(parse_output_fmt("yaml"), Err("must be one of [toml, json]"));
    assert_eq!(parse_output_fmt("TOML"), Err("must be one of [toml, json]"));
    assert_eq!(parse_output_fmt(""), Err("must be one of [toml, json]"));
}
