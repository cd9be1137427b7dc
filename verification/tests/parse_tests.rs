use bmsupgrade::config::Config;
use bmsupgrade::parse::{parse_config, ParseDiag, ParseDiagKind};

fn parsed(input: &str) -> (Config, Vec<ParseDiag>) {
    parse_config(input.as_bytes()).expect("input should decode")
}

fn get<'a>(cfg: &'a Config, key: &str) -> Option<&'a String> {
    cfg.get(&key.to_string())
}

#[test]
fn two_entries_parse_exactly() {
    let (cfg, diags) = parsed("set k1 v1\nset k2 v2\n");
    assert_eq!(cfg.len(), 2);
    assert_eq!(get(&cfg, "k1").unwrap(), "v1");
    assert_eq!(get(&cfg, "k2").unwrap(), "v2");
    assert!(diags.is_empty());
}

#[test]
fn wrong_keyword_line_is_skipped() {
    let (cfg, diags) = parsed("foo bar baz\n");
    assert_eq!(cfg.len(), 0);
    assert!(get(&cfg, "bar").is_none());
    assert_eq!(diags.len(), 1);
    assert_eq!(diags[0].kind, ParseDiagKind::OddLine);
    assert_eq!(diags[0].text, "foo bar baz");
}

#[test]
fn wrong_token_count_is_skipped() {
    let (cfg, diags) = parsed("set onlytwo\n");
    assert_eq!(cfg.len(), 0);
    assert_eq!(diags.len(), 1);
    assert_eq!(diags[0].kind, ParseDiagKind::OddLine);
    assert_eq!(diags[0].text, "set onlytwo");
}

#[test]
fn trailing_comment_is_ignored() {
    let (with_comment, d1) = parsed("set k1 v1 // trailing comment\n");
    let (plain, d2) = parsed("set k1 v1\n");
    assert_eq!(with_comment.len(), plain.len());
    assert_eq!(get(&with_comment, "k1"), get(&plain, "k1"));
    assert!(d1.is_empty());
    assert!(d2.is_empty());
}

#[test]
fn duplicate_key_last_wins_with_warning() {
    let (cfg, diags) = parsed("set a 1\nset a 2\n");
    assert_eq!(cfg.len(), 1);
    assert_eq!(get(&cfg, "a").unwrap(), "2");
    assert_eq!(diags.len(), 1);
    assert_eq!(diags[0].kind, ParseDiagKind::DuplicateKey);
    assert_eq!(diags[0].text, "a");
}

#[test]
fn duplicate_with_equal_value_still_warns() {
    let (cfg, diags) = parsed("set a 1\nset a 1\n");
    assert_eq!(get(&cfg, "a").unwrap(), "1");
    assert_eq!(diags.len(), 1);
    assert_eq!(diags[0].kind, ParseDiagKind::DuplicateKey);
}

#[test]
fn blank_comment_and_whitespace_lines_are_silent() {
    let (cfg, diags) = parsed("\n   \n// a comment line\n\t\nset a 1\n");
    assert_eq!(cfg.len(), 1);
    assert_eq!(get(&cfg, "a").unwrap(), "1");
    assert!(diags.is_empty());
}

#[test]
fn comment_inside_value_truncates_line() {
    // The cut is naive: a `//` anywhere truncates, even inside a value,
    // so the value keeps only what stood before it.
    let (cfg, diags) = parsed("set url http://example\n");
    assert_eq!(cfg.len(), 1);
    assert_eq!(get(&cfg, "url").unwrap(), "http:");
    assert!(diags.is_empty());
}

#[test]
fn crlf_line_endings_parse() {
    let (cfg, diags) = parsed("set a 1\r\nset b 2\r\n");
    assert_eq!(cfg.len(), 2);
    assert_eq!(get(&cfg, "a").unwrap(), "1");
    assert_eq!(get(&cfg, "b").unwrap(), "2");
    assert!(diags.is_empty());
}

#[test]
fn final_line_without_newline_counts() {
    let (cfg, _) = parsed("set a 1\nset b 2");
    assert_eq!(cfg.len(), 2);
    assert_eq!(get(&cfg, "b").unwrap(), "2");
}

#[test]
fn unicode_whitespace_separates_tokens() {
    let (cfg, diags) = parsed("set\u{a0}k\u{2003}v\n");
    assert_eq!(cfg.len(), 1);
    assert_eq!(get(&cfg, "k").unwrap(), "v");
    assert!(diags.is_empty());
}

#[test]
fn non_ascii_keys_and_values_survive_decoding() {
    let (cfg, diags) = parsed("set cl\u{e9} caf\u{e9}\n");
    assert_eq!(get(&cfg, "cl\u{e9}").unwrap(), "caf\u{e9}");
    assert!(diags.is_empty());
}

#[test]
fn invalid_utf8_is_an_encoding_error() {
    assert!(parse_config(&[0xff, 0xfe, 0x00]).is_err());
    assert!(parse_config(b"set a 1\n\xc0\x00\n").is_err());
}

#[test]
fn empty_input_parses_empty() {
    let (cfg, diags) = parsed("");
    assert_eq!(cfg.len(), 0);
    assert!(diags.is_empty());
}
