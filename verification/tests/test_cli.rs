use css_inline::cli::{combine_extra_css, format_error, parse_args};

fn args(items: &[&str]) -> Vec<String> {
    items.iter().map(|s| s.to_string()).collect()
}

fn parse_error(items: &[&str]) -> String {
    match parse_args(&args(items)) {
        Ok(_) => panic!("expected an error"),
        Err(message) => message,
    }
}

/// What the program writes to stderr for an error report.
fn stderr_report(filename: Option<&str>, error: &str) -> String {
    format!("{}\n", format_error(filename, error))
}

#[test]
fn wrong_base_url() {
    let error = url::Url::parse("https://:::::").unwrap_err();
    assert_eq!(
        stderr_report(None, &error.to_string()),
        "Status: ERROR\nDetails: empty host\n"
    );
}

#[test]
fn extra_css_file_not_found() {
    let io = std::io::Error::from_raw_os_error(2);
    let message = format!("Failed to read CSS file 'tests/nonexistent.css': {io}");
    assert_eq!(
        stderr_report(None, &message),
        "Status: ERROR\n\
         Details: Failed to read CSS file 'tests/nonexistent.css': No such file or directory (os error 2)\n"
    );
}

#[test]
fn not_found() {
    let io = std::io::Error::from_raw_os_error(2);
    assert_eq!(
        stderr_report(Some("unknown.html"), &io.to_string()),
        "Filename: unknown.html\nStatus: ERROR\nDetails: No such file or directory (os error 2)\n"
    );
}

#[test]
fn invalid_css() {
    let html = r#"<html><head><style>h1 {background-color: blue;}</style></head><body><h1 style="@wrong { color: ---}">Hello world!</h1></body></html>"#;
    let error = css_inline::inline(html).unwrap_err();
    assert_eq!(
        stderr_report(None, &error.to_string()),
        "Status: ERROR\nDetails: Invalid @ rule: wrong\n"
    );
}

#[test]
fn stdin() {
    let input = r#"<html><head><style>h1 {background-color: blue;}</style></head><body><h1>Hello world!</h1></body></html>"#;
    let mut out = Vec::new();
    css_inline::CSSInliner::default()
        .inline_to(input.trim(), &mut out)
        .unwrap();
    assert_eq!(
        String::from_utf8(out).unwrap(),
        "<html><head></head><body><h1 style=\"background-color: blue;\">Hello world!</h1></body></html>"
    );
}

#[test]
fn flag_requires_value_but_none_provided() {
    assert_eq!(
        parse_error(&["--base-url"]),
        "Error parsing arguments: Flag --base-url requires a value"
    );
}

#[test]
fn invalid_multi_character_short_flag() {
    assert_eq!(
        parse_error(&["-abc"]),
        "Error parsing arguments: Invalid flag: -abc"
    );
}

#[test]
fn keep_link_tags_flag() {
    let parsed = parse_args(&args(&[
        "tests/example.html",
        "--keep-link-tags",
        "--output-filename-prefix=inlined.keep-link-tags.",
    ]))
    .unwrap();
    assert!(parsed.keep_link_tags);
    assert_eq!(parsed.files, vec!["tests/example.html".to_string()]);
    assert_eq!(
        parsed.output_filename_prefix.as_deref(),
        Some("inlined.keep-link-tags.")
    );
}

#[test]
fn unknown_short_flag() {
    assert_eq!(parse_error(&["-b"]), "Unknown flag: b");
}

#[test]
fn unknown_boolean_flag() {
    assert_eq!(parse_error(&["--unknown-flag"]), "Unknown flag: unknown-flag");
}

#[test]
fn unknown_flag_with_value() {
    assert_eq!(
        parse_error(&["--unknown-flag=value"]),
        "Unknown flag: --unknown-flag"
    );
}

#[test]
fn invalid_boolean_value_for_flag() {
    assert_eq!(
        parse_error(&["--inline-style-tags=invalid"]),
        "Failed to parse value 'invalid' for flag 'inline-style-tags': provided string was not `true` or `false`"
    );
}

#[test]
fn cli_defaults() {
    let parsed = parse_args(&Vec::new()).unwrap();
    assert!(!parsed.help && !parsed.version);
    assert!(parsed.inline_style_tags);
    assert!(!parsed.keep_style_tags && !parsed.keep_link_tags && !parsed.keep_at_rules);
    assert!(!parsed.minify_css && !parsed.load_remote_stylesheets);
    assert!(parsed.files.is_empty() && parsed.extra_css_files.is_empty());
    assert!(parsed.base_url.is_none() && parsed.extra_css.is_none());
    assert!(parsed.output_filename_prefix.is_none());
}

#[test]
fn cli_help_and_version_flags() {
    assert!(parse_args(&args(&["--help"])).unwrap().help);
    assert!(parse_args(&args(&["-h"])).unwrap().help);
    assert!(parse_args(&args(&["--version"])).unwrap().version);
    assert!(parse_args(&args(&["-v"])).unwrap().version);
}

#[test]
fn cli_values_in_both_forms() {
    let parsed = parse_args(&args(&[
        "--base-url",
        "https://example.com/",
        "--extra-css=h1 { color: red; }",
        "--extra-css-file",
        "a.css",
        "--extra-css-file=b.css",
        "--inline-style-tags=false",
        "--load-remote-stylesheets=true",
        "--keep-at-rules",
        "--minify-css",
        "page.html",
    ]))
    .unwrap();
    assert_eq!(parsed.base_url.as_deref(), Some("https://example.com/"));
    assert_eq!(parsed.extra_css.as_deref(), Some("h1 { color: red; }"));
    assert_eq!(parsed.extra_css_files, vec!["a.css".to_string(), "b.css".to_string()]);
    assert!(!parsed.inline_style_tags);
    assert!(parsed.load_remote_stylesheets);
    assert!(parsed.keep_at_rules && parsed.minify_css);
    assert_eq!(parsed.files, vec!["page.html".to_string()]);
}

#[test]
fn cli_value_may_hold_equals_sign() {
    let parsed = parse_args(&args(&["--extra-css=a[href=x] { color: red }"])).unwrap();
    assert_eq!(parsed.extra_css.as_deref(), Some("a[href=x] { color: red }"));
}

#[test]
fn cli_flag_without_value_form_is_boolean() {
    // `load-remote-stylesheets` takes its value only after `=`.
    assert_eq!(
        parse_error(&["--load-remote-stylesheets"]),
        "Unknown flag: load-remote-stylesheets"
    );
}

#[test]
fn cli_single_dash_and_non_ascii_short_flag() {
    assert_eq!(parse_error(&["-"]), "Error parsing arguments: Invalid flag: -");
    assert_eq!(parse_error(&["-é"]), "Error parsing arguments: Invalid flag: -é");
}

#[test]
fn cli_first_error_stops_reading() {
    assert_eq!(
        parse_error(&["--nope", "--inline-style-tags=maybe"]),
        "Unknown flag: nope"
    );
}

#[test]
fn combine_extra_css_joins_with_newlines() {
    assert_eq!(combine_extra_css(None, &Vec::new()), None);
    assert_eq!(combine_extra_css(Some(String::new()), &Vec::new()), None);
    assert_eq!(
        combine_extra_css(Some("a{}".to_string()), &Vec::new()),
        Some("a{}\n".to_string())
    );
    assert_eq!(
        combine_extra_css(
            Some("a{}".to_string()),
            &vec!["b{}".to_string(), String::new(), "c{}".to_string()]
        ),
        Some("a{}\nb{}\n\nc{}\n".to_string())
    );
    assert_eq!(
        combine_extra_css(None, &vec![String::new(), "b{}".to_string()]),
        Some("b{}\n".to_string())
    );
}

#[test]
fn format_error_without_filename() {
    assert_eq!(format_error(None, "boom"), "Status: ERROR\nDetails: boom");
    assert_eq!(
        format_error(Some("x.html"), "  spaced  "),
        "Filename: x.html\nStatus: ERROR\nDetails:   spaced"
    );
}
