use css_inline::{CSSInliner, InlineOptions, Url};
use std::sync::Arc;

fn html_with(style: impl std::fmt::Display, body: impl std::fmt::Display) -> String {
    format!(
        "<html><head><style>{}</style></head><body>{}</body></html>",
        style, body
    )
}

fn assert_file_error(inlined: Result<String, css_inline::InlineError>) {
    assert_eq!(
        inlined.expect_err("Should fail").to_string(),
        "Loading local files requires the `file` feature"
    );
}

#[allow(unused_variables)]
fn assert_file(inlined: Result<String, css_inline::InlineError>, expected: &str) {
    assert_file_error(inlined)
}

#[allow(unused_variables)]
fn assert_http(inlined: Result<String, css_inline::InlineError>, expected: &str) {
    let error = inlined.expect_err("Should fail");
    assert_eq!(
        error.to_string(),
        "Loading external URLs requires the `http` feature"
    );
    assert!(error.source().is_some());
}

// Padding to ensure documents exceed the 1024-byte threshold for indexed lookups
const PADDING: &str = "                                                                                                                                                                                                                                                                                                                                                                                                                                                                                                                                                                                                                                                                                                                                                                                                                                                                                                                                                                                  ";

#[derive(Debug, Default)]
pub struct CustomStylesheetResolver;

impl css_inline::StylesheetResolver for CustomStylesheetResolver {}

fn make_large_html(style: &str) -> String {
    // Create HTML >= 1024 bytes to enable index-based optimizations
    let padding = "x".repeat(1000);
    format!(
        r#"<html><head><style>{style}</style></head><body><h1 class="exists">Test</h1><!-- {padding} --></body></html>"#
    )
}

#[test]
fn remove_multiple_style_tags_without_inlining() {
    let html = r#"
<html>
<head>
<style>
h1 {
    text-decoration: none;
}
</style>
<style>
.test-class {
        color: #ffffff;
}
a {
        color: #17bebb;
}
</style>
</head>
<body>
<a class="test-class" href="https://example.com">Test</a>
<h1>Test</h1>
</body>
</html>
    "#;
    let inliner = CSSInliner::options()
        .keep_style_tags(false)
        .inline_style_tags(false)
        .build();
    let result = inliner.inline(html).unwrap();
    assert_eq!(
        result,
        r#"<html><head>


</head>
<body>
<a class="test-class" href="https://example.com">Test</a>
<h1>Test</h1>


    </body></html>"#
    )
}

#[test]
fn do_not_process_style_tag() {
    let html = html_with(
        "@media (max-width: 767px) { padding: 0;} h1 {background-color: blue;}",
        "<h1>Hello world!</h1>"
    );
    let options = InlineOptions {
        inline_style_tags: false,
        keep_style_tags: true,
        ..Default::default()
    };
    let inliner = CSSInliner::new(options);
    let result = inliner.inline(&html).unwrap();
    assert_eq!(
        result,
        "<html><head><style>@media (max-width: 767px) { padding: 0;} h1 {background-color: blue;}</style></head><body><h1>Hello world!</h1></body></html>"
    )
}

#[test]
fn do_not_process_and_remove_style_tag() {
    let html = html_with(
        "@media (max-width: 767px) { padding: 0;} h1 {background-color: blue;}",
        "<h1>Hello world!</h1>"
    );
    let options = InlineOptions {
        keep_style_tags: false,
        inline_style_tags: false,
        ..Default::default()
    };
    let inliner = CSSInliner::new(options);
    let result = inliner.inline(&html).unwrap();
    assert_eq!(
        result,
        "<html><head></head><body><h1>Hello world!</h1></body></html>"
    )
}

#[test]
fn do_not_process_and_remove_style_tag_but_keep_at_rules() {
    let html = html_with(
        "@media (max-width: 767px) { padding: 0;} h1 {background-color: blue;}",
        "<h1>Hello world!</h1>"
    );
    let options = InlineOptions {
        keep_style_tags: false,
        inline_style_tags: false,
        keep_at_rules: true,
        ..Default::default()
    };
    let inliner = CSSInliner::new(options);
    let result = inliner.inline(&html).unwrap();
    assert_eq!(
        result,
        "<html><head><style>@media (max-width: 767px) { padding: 0;} </style></head><body><h1>Hello world!</h1></body></html>"
    )
}

#[test]
fn keep_multiple_at_rules() {
    let html = r#"
<html>
<head>
<style>
@media (max-width: 600px) { h1 { font-size: 18px; } }
@media (max-width: 400px) { h1 { font-size: 12px; } }
</style>
<style>
@media (max-width: 200px) { h1 { font-size: 8px; } }
</style>
</head>
<body>
<h1>Test</h1>
</body>
</html>
    "#;

    let options = InlineOptions {
        keep_at_rules: true,
        ..Default::default()
    };
    let inliner = CSSInliner::new(options);
    let result = inliner.inline(html).unwrap();
    assert_eq!(
        result,
        r#"<html><head><style>@media (max-width: 600px) { h1 { font-size: 18px; } } @media (max-width: 400px) { h1 { font-size: 12px; } } @media (max-width: 200px) { h1 { font-size: 8px; } } </style>


</head>
<body>
<h1>Test</h1>


    </body></html>"#
    )
}

#[test]
fn extra_css() {
    let html = html_with("h1 {background-color: blue;}", "<h1>Hello world!</h1>");
    let options = InlineOptions {
        inline_style_tags: false,
        extra_css: Some("h1 {background-color: green;}".into()),
        ..Default::default()
    };
    let inliner = CSSInliner::new(options);
    let result = inliner.inline(&html).unwrap();
    assert_eq!(
        result,
        "<html><head></head><body><h1 style=\"background-color: green;\">Hello world!</h1></body></html>"
    )
}

#[test]
fn remote_file_stylesheet() {
    let html = r#"
<html>
<head>
<link href="tests/external.css" rel="stylesheet">
<link rel="alternate" type="application/rss+xml" title="RSS" href="/rss.xml">
<style>
h2 { color: red; }
</style>
</head>
<body>
<h1>Big Text</h1>
<h2>Smaller Text</h2>
</body>
</html>"#;
    let inlined = css_inline::inline(html);
    assert_file(
        inlined,
        r#"<body>
<h1 style="color: blue;">Big Text</h1>
<h2 style="color: red;">Smaller Text</h2>

</body></html>"#,
    );
}

#[test]
fn missing_stylesheet() {
    let html = r#"
<html>
<head>
<link href="tests/missing.css" rel="stylesheet">
</head>
<body>
<h1>Big Text</h1>
</body>
</html>"#;
    let inlined = css_inline::inline(html);
    assert_file_error(inlined);
}

#[test]
fn remote_file_stylesheet_disable() {
    let html = r#"
<html>
<head>
<link href="tests/external.css" rel="stylesheet">
<link rel="alternate" type="application/rss+xml" title="RSS" href="/rss.xml">
<style>
h2 { color: red; }
</style>
</head>
<body>
<h1>Big Text</h1>
<h2>Smaller Text</h2>
</body>
</html>"#;
    let inlined = css_inline::inline(html);
    assert_file(
        inlined,
        r#"<body>
<h1 style="color: blue;">Big Text</h1>
<h2 style="color: red;">Smaller Text</h2>

</body></html>"#,
    );
}

#[test]
fn remote_network_stylesheet() {
    let html = r#"
<html>
<head>
<link href="http://127.0.0.1:1234/external.css" rel="stylesheet">
<link rel="alternate" type="application/rss+xml" title="RSS" href="/rss.xml">
<style>
h2 { color: red; }
</style>
</head>
<body>
<h1>Big Text</h1>
<h2>Smaller Text</h2>
</body>
</html>"#;
    let inlined = css_inline::inline(html);
    assert_http(
        inlined,
        r#"<body>
<h1 style="color: blue;">Big Text</h1>
<h2 style="color: red;">Smaller Text</h2>

</body></html>"#,
    );
}

#[test]
fn remote_network_stylesheet_invalid_url() {
    let html = r#"
<html>
<head>
<link href="http:" rel="stylesheet">
</head>
<body>
</body>
</html>"#;
    let error = css_inline::inline(html).expect_err("Should fail");
    let expected = "Loading external URLs requires the `http` feature";
    assert_eq!(error.to_string(), expected);
    assert!(error.source().is_some());
}

#[test]
fn remote_network_stylesheet_same_scheme() {
    let html = r#"
<html>
<head>
<link href="//127.0.0.1:1234/external.css" rel="stylesheet">
<link rel="alternate" type="application/rss+xml" title="RSS" href="/rss.xml">
<style>
h2 { color: red; }
</style>
</head>
<body>
<h1>Big Text</h1>
<h2>Smaller Text</h2>
</body>
</html>"#;
    let inliner = CSSInliner::options()
        .base_url(Some(Url::parse("http://127.0.0.1:1234").unwrap()))
        .build();
    let inlined = inliner.inline(html);
    assert_http(
        inlined,
        r#"<body>
<h1 style="color: blue;">Big Text</h1>
<h2 style="color: red;">Smaller Text</h2>

</body></html>"#,
    );
}

#[test]
fn remote_network_relative_stylesheet() {
    let html = r#"
<html>
<head>
<link href="external.css" rel="stylesheet">
<link rel="alternate" type="application/rss+xml" title="RSS" href="/rss.xml">
<style>
h2 { color: red; }
</style>
</head>
<body>
<h1>Big Text</h1>
<h2>Smaller Text</h2>
</body>
</html>"#;
    let inliner = CSSInliner::options()
        .base_url(Some(Url::parse("http://127.0.0.1:1234").unwrap()))
        .build();
    let inlined = inliner.inline(html);
    assert_http(
        inlined,
        r#"<body>
<h1 style="color: blue;">Big Text</h1>
<h2 style="color: red;">Smaller Text</h2>

</body></html>"#,
    );
}

#[test]
fn file_scheme() {
    let html = r#"
<html>
<head>
<link href="external.css" rel="stylesheet">
<link rel="alternate" type="application/rss+xml" title="RSS" href="/rss.xml">
<style>
h2 { color: red; }
</style>
</head>
<body>
<h1>Big Text</h1>
<h2>Smaller Text</h2>
</body>
</html>"#;
    let options = InlineOptions {
        base_url: Some(Url::parse("file://tests/").unwrap()),
        ..Default::default()
    };
    let inliner = CSSInliner::new(options);
    let inlined = inliner.inline(html);
    assert_file(
        inlined,
        r#"<body>
<h1 style="color: blue;">Big Text</h1>
<h2 style="color: red;">Smaller Text</h2>

</body></html>"#,
    );
}

#[test]
fn customize_inliner() {
    let options = InlineOptions {
        load_remote_stylesheets: false,
        ..Default::default()
    }
    .preallocate_node_capacity(25);
    assert!(!options.load_remote_stylesheets);
    assert!(!options.keep_style_tags);
    assert_eq!(options.base_url, None);
    assert_eq!(options.preallocate_node_capacity, 25);
}

#[test]
fn use_builder() {
    let url = Url::parse("https://api.example.com").unwrap();
    let _ = CSSInliner::options()
        .keep_style_tags(true)
        .base_url(Some(url))
        .load_remote_stylesheets(false)
        .extra_css(Some("h1 {color: green}".into()))
        .build();
}

#[test]
fn keep_style_tags() {
    let inliner = CSSInliner::options().keep_style_tags(true).build();
    let html = r#"
<html>
<head>
<style>
@media (max-width: 600px) { h1 { font-size: 18px; } }
h2 { color: red; }
</style>
</head>
<body>
<h2></h2>
</body>
</html>"#;
    let inlined = inliner.inline(html).unwrap();
    assert_eq!(inlined, "<html><head>\n<style>\n@media (max-width: 600px) { h1 { font-size: 18px; } }\nh2 { color: red; }\n</style>\n</head>\n<body>\n<h2 style=\"color: red;\"></h2>\n\n</body></html>");
}

#[test]
fn keep_link_tags() {
    let inliner = CSSInliner::options()
        .base_url(Some(Url::parse("http://127.0.0.1:1234").unwrap()))
        .keep_link_tags(true)
        .build();
    let html = r#"
<html>
<head>
<link href="external.css" rel="stylesheet">
</head>
<body>
<h1></h1>
</body>
</html>"#;
    let inlined = inliner.inline(html);
    assert_http(
        inlined,
        "<html><head>\n<link href=\"external.css\" rel=\"stylesheet\">\n</head>\n<body>\n<h1 style=\"color: blue;\"></h1>\n\n</body></html>",
    );
}

#[test]
fn keep_at_rules() {
    let inliner = CSSInliner::options().keep_at_rules(true).build();
    let html = r#"
<html>
<head>
<style>
h1 { color: blue; }
@media (max-width: 600px) { h1 { font-size: 18px; } }
p { margin: 10px; }
</style>
</head>
<body>
<h1>Hello</h1><p>World</p>
</body>
</html>"#;
    let inlined = inliner.inline(html).unwrap();
    let expected = "<html><head><style>@media (max-width: 600px) { h1 { font-size: 18px; } } </style>\n\n</head>\n<body>\n<h1 style=\"color: blue;\">Hello</h1><p style=\"margin: 10px;\">World</p>\n\n</body></html>";
    assert_eq!(inlined, expected);
}

#[test]
fn minify_css() {
    let inliner = CSSInliner::options().minify_css(true).build();
    let html = r#"
<html>
<head>
<style>
h1 {
  color: blue;
  font-weight: bold;
}
</style>
</head>
<body>
<h1>Hello</h1>
</body>
</html>"#;
    let inlined = inliner.inline(html).unwrap();
    let expected = "<html><head>\n\n</head>\n<body>\n<h1 style=\"color:blue;font-weight:bold\">Hello</h1>\n\n</body></html>";
    assert_eq!(inlined, expected);
}

#[test]
fn test_resolver_without_implementation() {
    let html = r#"
<html>
<head>
<link href="http://127.0.0.1:1234/external.css" rel="stylesheet">
</head>
</html>"#;

    let inliner = CSSInliner::options()
        .resolver(Arc::new(CustomStylesheetResolver))
        .build();

    let error = inliner.inline(html).expect_err("Should fail");
    assert_eq!(
        error.to_string(),
        "Loading external URLs requires the `http` feature"
    );
    assert!(error.source().is_some());
}

#[test]
fn indexed_id_selector_large_document() {
    // ID selector on large document should use O(1) lookup
    let html = format!(
        r#"<html><head><style>#target {{ color: blue; }}</style></head><body>
<!--{PADDING}-->
<div id="target">Target Element</div>
</body></html>"#
    );
    let inlined = css_inline::inline(&html).unwrap();
    assert!(inlined.contains(r#"<div id="target" style="color: blue;">Target Element</div>"#));
}

#[test]
fn indexed_class_selector_large_document() {
    // Class selector on large document should use indexed lookup
    let html = format!(
        r#"<html><head><style>.target {{ color: red; }}</style></head><body>
<!--{PADDING}-->
<p class="target">Target Element</p>
</body></html>"#
    );
    let inlined = css_inline::inline(&html).unwrap();
    assert!(inlined.contains(r#"<p class="target" style="color: red;">Target Element</p>"#));
}

#[test]
fn indexed_tag_selector_large_document() {
    // Tag selector on large document should use indexed lookup
    let html = format!(
        r#"<html><head><style>article {{ font-weight: bold; }}</style></head><body>
<!--{PADDING}-->
<article>Target Element</article>
</body></html>"#
    );
    let inlined = css_inline::inline(&html).unwrap();
    assert!(inlined.contains(r#"<article style="font-weight: bold;">Target Element</article>"#));
}

#[test]
fn indexed_descendant_selector_large_document() {
    // Descendant selector should use rightmost anchor
    let html = format!(
        r#"<html><head><style>.container .target {{ color: green; }}</style></head><body>
<!--{PADDING}-->
<div class="container"><span class="target">Nested Target</span></div>
<span class="target">Not nested - should NOT match</span>
</body></html>"#
    );
    let inlined = css_inline::inline(&html).unwrap();
    assert!(inlined.contains(r#"<span class="target" style="color: green;">Nested Target</span>"#));
    assert!(inlined.contains(r#"<span class="target">Not nested - should NOT match</span>"#));
}

#[test]
fn indexed_child_selector_large_document() {
    // Child selector should use rightmost anchor
    let html = format!(
        r#"<html><head><style>#menu > li {{ padding: 10px; }}</style></head><body>
<!--{PADDING}-->
<ul id="menu"><li>Item 1</li><li>Item 2</li></ul>
<ul id="other"><li>Other Item</li></ul>
</body></html>"#
    );
    let inlined = css_inline::inline(&html).unwrap();
    assert!(inlined.contains(r#"<li style="padding: 10px;">Item 1</li>"#));
    assert!(inlined.contains(r#"<li style="padding: 10px;">Item 2</li>"#));
    assert!(inlined.contains(r#"<li>Other Item</li>"#));
}

#[test]
fn indexed_multiple_selectors_fallback_large_document() {
    // Multiple selectors (comma-separated) should fallback to scanning all elements
    let html = format!(
        r#"<html><head><style>#target, .target {{ text-decoration: underline; }}</style></head><body>
<!--{PADDING}-->
<div id="target">ID Target</div>
<p class="target">Class Target</p>
</body></html>"#
    );
    let inlined = css_inline::inline(&html).unwrap();
    assert!(
        inlined.contains(r#"<div id="target" style="text-decoration: underline;">ID Target</div>"#)
    );
    assert!(inlined
        .contains(r#"<p class="target" style="text-decoration: underline;">Class Target</p>"#));
}

#[test]
fn indexed_multiple_elements_same_class_large_document() {
    // Multiple elements with the same class should all get styled
    let html = format!(
        r#"<html><head><style>.item {{ display: inline-block; }}</style></head><body>
<!--{PADDING}-->
<span class="item">Item 1</span>
<span class="item">Item 2</span>
<span class="item">Item 3</span>
</body></html>"#
    );
    let inlined = css_inline::inline(&html).unwrap();
    let count = inlined.matches(r#"style="display: inline-block;""#).count();
    assert_eq!(count, 3);
}

#[test]
fn indexed_pseudo_class_selector_large_document() {
    // Pseudo-class selectors should still work with indexing
    let html = format!(
        r#"<html><head><style>.nav li:first-child {{ font-weight: bold; }}</style></head><body>
<!--{PADDING}-->
<ul class="nav"><li>First</li><li>Second</li><li>Third</li></ul>
</body></html>"#
    );
    let inlined = css_inline::inline(&html).unwrap();
    assert!(inlined.contains(r#"<li style="font-weight: bold;">First</li>"#));
    assert!(inlined.contains("<li>Second</li>"));
    assert!(inlined.contains("<li>Third</li>"));
}

#[test]
fn indexed_compound_tag_class_large_document() {
    // Compound selector like tag.class should match correctly
    let html = format!(
        r#"<html><head><style>p.highlight {{ background: yellow; }}</style></head><body>
<!--{PADDING}-->
<p class="highlight">Highlighted paragraph</p>
<span class="highlight">Highlighted span - NOT matched</span>
</body></html>"#
    );
    let inlined = css_inline::inline(&html).unwrap();
    assert!(inlined
        .contains(r#"<p class="highlight" style="background: yellow;">Highlighted paragraph</p>"#));
    assert!(inlined.contains(r#"<span class="highlight">Highlighted span - NOT matched</span>"#));
}

#[test]
fn remove_inlined_selectors_basic() {
    let inliner = CSSInliner::options().remove_inlined_selectors(true).build();
    let html =
        r#"<html><head><style>h1 { color: blue; }</style></head><body><h1>Test</h1></body></html>"#;
    let result = inliner.inline(html).unwrap();
    assert_eq!(
        result,
        r#"<html><head></head><body><h1 style="color: blue;">Test</h1></body></html>"#
    );
}

#[test]
fn remove_inlined_selectors_partial() {
    let inliner = CSSInliner::options().remove_inlined_selectors(true).build();
    let html = r#"<html><head><style>
h1 { color: blue; }
h2 { color: red; }
</style></head><body><h1>Test</h1></body></html>"#;
    let result = inliner.inline(html).unwrap();
    assert_eq!(
        result,
        "<html><head><style>h2 { color: red; }</style></head><body><h1 style=\"color: blue;\">Test</h1></body></html>"
    );
}

#[test]
fn remove_inlined_selectors_multiple_blocks() {
    let inliner = CSSInliner::options().remove_inlined_selectors(true).build();
    let html = r#"<html><head>
<style>h1 { color: blue; }</style>
<style>h2 { color: red; }</style>
</head><body><h1>Test</h1></body></html>"#;
    let result = inliner.inline(html).unwrap();
    assert_eq!(
        result,
        "<html><head>\n\n<style>h2 { color: red; }</style>\n</head><body><h1 style=\"color: blue;\">Test</h1></body></html>"
    );
}

#[test]
fn remove_inlined_selectors_comma_separated() {
    let inliner = CSSInliner::options().remove_inlined_selectors(true).build();
    let html = r#"<html><head><style>.a, .b { color: blue; }</style></head><body><div class="a">Test</div></body></html>"#;
    let result = inliner.inline(html).unwrap();
    assert_eq!(
        result,
        "<html><head><style>.b { color: blue; }</style></head><body><div class=\"a\" style=\"color: blue;\">Test</div></body></html>"
    );
}

#[test]
fn remove_inlined_selectors_with_at_rules() {
    let inliner = CSSInliner::options()
        .remove_inlined_selectors(true)
        .keep_at_rules(true)
        .build();
    let html = r#"<html><head><style>
h1 { color: blue; }
@media (max-width: 600px) { h1 { font-size: 18px; } }
</style></head><body><h1>Test</h1></body></html>"#;
    let result = inliner.inline(html).unwrap();
    assert_eq!(
        result,
        "<html><head><style>@media (max-width: 600px) { h1 { font-size: 18px; } } </style></head><body><h1 style=\"color: blue;\">Test</h1></body></html>"
    );
}

#[test]
fn remove_inlined_selectors_with_keep_style_tags() {
    let inliner = CSSInliner::options()
        .remove_inlined_selectors(true)
        .keep_style_tags(true)
        .build();
    let html =
        r#"<html><head><style>h1 { color: blue; }</style></head><body><h1>Test</h1></body></html>"#;
    let result = inliner.inline(html).unwrap();
    assert_eq!(
        result,
        "<html><head><style></style></head><body><h1 style=\"color: blue;\">Test</h1></body></html>"
    );
}

#[test]
fn remove_inlined_selectors_empty_result() {
    let inliner = CSSInliner::options().remove_inlined_selectors(true).build();
    let html = r#"<html><head><style>h1 { color: blue; } p { color: red; }</style></head><body><h1>Test</h1><p>Para</p></body></html>"#;
    let result = inliner.inline(html).unwrap();
    assert_eq!(
        result,
        "<html><head></head><body><h1 style=\"color: blue;\">Test</h1><p style=\"color: red;\">Para</p></body></html>"
    );
}

#[test]
fn remove_inlined_selectors_no_match() {
    let inliner = CSSInliner::options().remove_inlined_selectors(true).build();
    let html = r#"<html><head><style>.nonexistent { color: blue; }</style></head><body><h1>Test</h1></body></html>"#;
    let result = inliner.inline(html).unwrap();
    assert_eq!(
        result,
        "<html><head><style>.nonexistent { color: blue; }</style></head><body><h1>Test</h1></body></html>"
    );
}

#[test]
fn remove_inlined_selectors_disabled() {
    let inliner = CSSInliner::options()
        .remove_inlined_selectors(false)
        .build();
    let html =
        r#"<html><head><style>h1 { color: blue; }</style></head><body><h1>Test</h1></body></html>"#;
    let result = inliner.inline(html).unwrap();
    assert_eq!(
        result,
        "<html><head></head><body><h1 style=\"color: blue;\">Test</h1></body></html>"
    );
}

#[test]
fn remove_inlined_selectors_multiple_unmatched_after_removal() {
    let inliner = CSSInliner::options().remove_inlined_selectors(true).build();
    // h1 matches and gets removed, .a and .b don't match and need to be comma-joined
    let html = r#"<html><head><style>h1, .a, .b { color: blue; }</style></head><body><h1>Test</h1></body></html>"#;
    let result = inliner.inline(html).unwrap();
    assert_eq!(
        result,
        "<html><head><style>.a, .b { color: blue; }</style></head><body><h1 style=\"color: blue;\">Test</h1></body></html>"
    );
}

#[test]
fn remove_inlined_selectors_empty_selector_in_list() {
    let inliner = CSSInliner::options().remove_inlined_selectors(true).build();
    let html = r#"<html><head><style>.a, , .b { color: blue; }</style></head><body><h1>Test</h1></body></html>"#;
    let result = inliner.inline(html).unwrap();
    assert_eq!(
        result,
        "<html><head><style>.a, .b { color: blue; }</style></head><body><h1>Test</h1></body></html>"
    );
}

#[test]
fn remove_inlined_selectors_only_at_rules() {
    let inliner = CSSInliner::options()
        .remove_inlined_selectors(true)
        .keep_at_rules(true)
        .build();
    let html = r#"<html><head><style>@media print { h1 { color: blue; } }</style></head><body><h1>Test</h1></body></html>"#;
    let result = inliner.inline(html).unwrap();
    assert!(result.contains("@media print"));
}

#[test]
fn remove_inlined_selectors_no_style_tags() {
    let inliner = CSSInliner::options().remove_inlined_selectors(true).build();
    let html = r#"<html><head></head><body><h1>Test</h1></body></html>"#;
    let result = inliner.inline(html).unwrap();
    assert_eq!(
        result,
        "<html><head></head><body><h1>Test</h1></body></html>"
    );
}

#[test]
fn remove_inlined_selectors_all_matched_removes_style() {
    let inliner = CSSInliner::options().remove_inlined_selectors(true).build();
    let html = r#"<html><head><style>h1, p { color: blue; }</style></head><body><h1>Title</h1><p>Text</p></body></html>"#;
    let result = inliner.inline(html).unwrap();
    assert_eq!(
        result,
        "<html><head></head><body><h1 style=\"color: blue;\">Title</h1><p style=\"color: blue;\">Text</p></body></html>"
    );
}

#[test]
fn remove_inlined_selectors_keep_style_tags_partial() {
    let inliner = CSSInliner::options()
        .remove_inlined_selectors(true)
        .keep_style_tags(true)
        .build();
    let html = r#"<html><head><style>h1 { color: blue; } .unmatched { color: red; }</style></head><body><h1>Test</h1></body></html>"#;
    let result = inliner.inline(html).unwrap();
    assert_eq!(
        result,
        "<html><head><style>.unmatched { color: red; }</style></head><body><h1 style=\"color: blue;\">Test</h1></body></html>"
    );
}

#[test]
fn remove_inlined_selectors_empty_style_tag() {
    let inliner = CSSInliner::options()
        .remove_inlined_selectors(true)
        .keep_style_tags(true)
        .build();
    let html = r#"<html><head><style></style></head><body><h1>Test</h1></body></html>"#;
    let result = inliner.inline(html).unwrap();
    assert_eq!(
        result,
        "<html><head><style></style></head><body><h1>Test</h1></body></html>"
    );
}

#[test]
fn remove_inlined_selectors_nonexistent_class_with_indexes() {
    // Tests the anchor_exists fast path for class selectors
    let inliner = CSSInliner::options().remove_inlined_selectors(true).build();
    let html = make_large_html(".nonexistent { color: blue; }");
    let result = inliner.inline(&html).unwrap();
    // Class doesn't exist, selector should be kept
    assert!(result.contains(".nonexistent { color: blue; }"));
}

#[test]
fn remove_inlined_selectors_nonexistent_id_with_indexes() {
    // Tests the anchor_exists fast path for ID selectors
    let inliner = CSSInliner::options().remove_inlined_selectors(true).build();
    let html = make_large_html("#nonexistent { color: blue; }");
    let result = inliner.inline(&html).unwrap();
    // ID doesn't exist, selector should be kept
    assert!(result.contains("#nonexistent { color: blue; }"));
}

#[test]
fn remove_inlined_selectors_nonexistent_tag_with_indexes() {
    // Tests the anchor_exists fast path for tag selectors
    let inliner = CSSInliner::options().remove_inlined_selectors(true).build();
    let html = make_large_html("article { color: blue; }");
    let result = inliner.inline(&html).unwrap();
    // Tag doesn't exist, selector should be kept
    assert!(result.contains("article { color: blue; }"));
}

#[test]
fn remove_inlined_selectors_mixed_existent_nonexistent_with_indexes() {
    // Tests mixed selectors: one matches via anchor_exists, one doesn't
    let inliner = CSSInliner::options().remove_inlined_selectors(true).build();
    let html = make_large_html("h1 { color: blue; } .nonexistent { color: red; }");
    let result = inliner.inline(&html).unwrap();
    // h1 exists and matches, so its selector is removed and style is inlined
    assert!(result.contains(r#"style="color: blue;""#));
    // .nonexistent doesn't exist, so its selector is kept
    assert!(result.contains(".nonexistent { color: red; }"));
}

#[test]
fn remove_inlined_selectors_comma_list_with_nonexistent_anchor() {
    // Tests comma-separated selectors where one anchor doesn't exist
    let inliner = CSSInliner::options().remove_inlined_selectors(true).build();
    let html = make_large_html("h1, .nonexistent { color: blue; }");
    let result = inliner.inline(&html).unwrap();
    // h1 matches and gets inlined
    assert!(result.contains(r#"style="color: blue;""#));
    // .nonexistent doesn't exist, so that part of selector is kept
    assert!(result.contains(".nonexistent { color: blue; }"));
}


#[test]
fn remove_inlined_selectors_invalid_identifier_with_indexes() {
    // Tests edge case where selector starts with . or # but has no valid identifier
    // CSS parser may reject these, but anchor_exists handles them defensively
    let inliner = CSSInliner::options().remove_inlined_selectors(true).build();

    // Empty class name after dot - extract_identifier returns None, anchor_exists returns true
    // These are invalid CSS but we handle them gracefully
    let html = make_large_html(". { color: red; }");
    let result = inliner.inline(&html).unwrap();
    // Should not panic, invalid CSS is ignored
    assert!(!result.contains(r#"style="color: red;""#));
}

#[test]
fn options_and_inliner_can_be_printed() {
    let options = InlineOptions::default().extra_css(Some("h1 { color: red }".to_string()));
    let text = format!("{:?}", options);
    assert!(text.contains("extra_css"));
    let inliner = CSSInliner::new(options);
    assert!(format!("{:?}", inliner).contains("CSSInliner"));
}
