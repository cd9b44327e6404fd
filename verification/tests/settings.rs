use yoink::settings::{parse_bool_setting, parse_settings, parse_sort_mode_setting, ConfigError, SortMode};

#[test]
fn bool_values_parse_case_insensitively() {
    assert_eq!(parse_bool_setting("true"), Some(true));
    assert_eq!(parse_bool_setting("1"), Some(true));
    assert_eq!(parse_bool_setting("YES"), Some(true));
    assert_eq!(parse_bool_setting(" on "), Some(true));
    assert_eq!(parse_bool_setting("false"), Some(false));
    assert_eq!(parse_bool_setting("0"), Some(false));
    assert_eq!(parse_bool_setting("No"), Some(false));
    assert_eq!(parse_bool_setting("OFF"), Some(false));
    assert_eq!(parse_bool_setting("maybe"), None);
    assert_eq!(parse_bool_setting(""), None);
}

#[test]
fn values_are_trimmed_of_unicode_whitespace() {
    assert_eq!(parse_bool_setting("true\u{a0}"), Some(true));
    assert_eq!(parse_bool_setting("\u{2003}yes\u{3000}"), Some(true));
    assert_eq!(parse_sort_mode_setting("depth\u{a0}"), Some(SortMode::Depth));
    let settings = parse_settings("include_hidden=true\u{a0}\n\u{a0}\n").expect("settings");
    assert!(settings.include_hidden);
    // a line of only whitespace is blank, not an ignore glob
    assert_eq!(settings.globs.len(), 2);
}

#[test]
fn sort_modes_parse_case_insensitively() {
    assert_eq!(parse_sort_mode_setting("depth"), Some(SortMode::Depth));
    assert_eq!(parse_sort_mode_setting(" Alphabetical "), Some(SortMode::Alphabetical));
    assert_eq!(parse_sort_mode_setting("name"), None);
}

#[test]
fn empty_config_yields_defaults() {
    let settings = parse_settings("").expect("settings");
    assert!(!settings.include_hidden);
    assert!(!settings.include_mounts);
    assert!(!settings.include_symlinks);
    assert_eq!(settings.sort_mode, SortMode::Depth);
    assert_eq!(settings.globs, vec![".git/**".to_string(), "node_modukes/**".to_string()]);
}

#[test]
fn comments_and_blanks_are_skipped() {
    let settings = parse_settings("# a comment\n\n   \ninclude_hidden=yes\n").expect("settings");
    assert!(settings.include_hidden);
    assert_eq!(settings.globs.len(), 2);
}

#[test]
fn keys_are_case_insensitive_and_values_trimmed() {
    let settings =
        parse_settings("INCLUDE_MOUNTS = TRUE\nSort_Mode= alphabetical\n").expect("settings");
    assert!(settings.include_mounts);
    assert_eq!(settings.sort_mode, SortMode::Alphabetical);
}

#[test]
fn unrecognized_lines_become_globs() {
    let settings = parse_settings("target/**\nbuild=artifacts/**\n").expect("settings");
    assert_eq!(
        settings.globs,
        vec![
            ".git/**".to_string(),
            "node_modukes/**".to_string(),
            "target/**".to_string(),
            "build=artifacts/**".to_string(),
        ]
    );
}

#[test]
fn bad_boolean_value_is_an_error() {
    match parse_settings("include_hidden=banana\n") {
        Err(ConfigError::InvalidValue { key, value }) => {
            assert_eq!(key, "include_hidden");
            assert_eq!(value, "banana");
        },
        _ => panic!("expected an invalid-value error"),
    }
}

#[test]
fn bad_sort_mode_is_an_error() {
    match parse_settings("sort_mode=sideways\n") {
        Err(ConfigError::InvalidValue { key, value }) => {
            assert_eq!(key, "sort_mode");
            assert_eq!(value, "sideways");
        },
        _ => panic!("expected an invalid-value error"),
    }
}

#[test]
fn invalid_glob_is_an_error() {
    match parse_settings("a[\n") {
        Err(ConfigError::InvalidGlob { pattern }) => {
            assert_eq!(pattern, "a[");
        },
        _ => panic!("expected an invalid-glob error"),
    }
}

#[test]
fn later_settings_override_earlier_ones() {
    let settings =
        parse_settings("include_hidden=true\ninclude_hidden=false\n").expect("settings");
    assert!(!settings.include_hidden);
}
