use css_inline::resolver::{file_read_error, local_path};
use css_inline::inliner::stylesheet_locations;
use css_inline::tree_builder::parse_with_options;
use css_inline::css::SyntaxError;
use css_inline::declarations::{merge_styles, Entry};
use css_inline::inliner::{count_ranks, record_retrieved, split_selectors};
use css_inline::serializer::{push_escaped_attr, push_escaped_text};
use css_inline::sources::{sorted_unique, CssBuffer, CssOrigin};
use css_inline::urls::{full_url, scheme};
use css_inline::{CSSInliner, InlineError, InlineOptions};

fn chars(s: &str) -> Vec<char> {
    s.chars().collect()
}

fn entry(name: &str, value: &str) -> Entry {
    Entry {
        name: chars(name),
        value: chars(value),
    }
}

fn merged(attr: &str, news: Vec<Entry>, minify: bool) -> Result<String, SyntaxError> {
    let mut out = String::new();
    merge_styles(&mut out, attr, &news, minify).map(|()| out)
}

#[test]
fn merge_keeps_existing_declaration() {
    assert_eq!(
        merged("color: red", vec![entry("color", "blue")], false).unwrap(),
        "color: red"
    );
}

#[test]
fn merge_important_replaces_plain_existing() {
    assert_eq!(
        merged("color: red", vec![entry("color", "blue !important")], false).unwrap(),
        "color: blue"
    );
}

#[test]
fn merge_keeps_important_existing() {
    assert_eq!(
        merged("color: red !important", vec![entry("color", "blue !important")], false).unwrap(),
        "color: red !important"
    );
}

#[test]
fn merge_puts_new_declarations_first() {
    assert_eq!(
        merged("margin: 0", vec![entry("color", " blue ")], false).unwrap(),
        "color: blue;margin: 0"
    );
    assert_eq!(
        merged("margin: 0", vec![entry("color", "blue")], true).unwrap(),
        "color:blue;margin:0"
    );
}

#[test]
fn merge_replaces_double_quotes() {
    assert_eq!(
        merged("", vec![entry("font-family", "\"Arial\"")], false).unwrap(),
        "font-family: 'Arial'"
    );
}

#[test]
fn merge_reports_invalid_at_rule() {
    match merged("@wrong { color: ---}", vec![entry("color", "blue")], false) {
        Err(SyntaxError::AtRuleInvalid(name)) => assert_eq!(name, "wrong"),
        _ => panic!("expected an invalid at-rule"),
    }
}

#[test]
fn escaping_text_and_attributes() {
    let mut text = String::new();
    push_escaped_text(&mut text, "a<b&c>\u{a0}\"");
    assert_eq!(text, "a&lt;b&amp;c&gt;&nbsp;\"");
    let mut attr = String::new();
    push_escaped_attr(&mut attr, "a\"b&c\u{a0}<");
    assert_eq!(attr, "a&quot;b&amp;c&nbsp;<");
}

#[test]
fn split_then_join_gives_back_the_selectors() {
    let text = "h1, .a > p,#b";
    let pieces = split_selectors(&chars(text));
    let strings: Vec<String> = pieces.iter().map(|p| p.iter().collect()).collect();
    assert_eq!(strings, vec!["h1", " .a > p", "#b"]);
    assert_eq!(strings.join(","), text);
}

#[test]
fn stylesheet_locations_sorted_once() {
    let items = vec!["b.css".to_string(), "a.css".to_string(), "b.css".to_string()];
    let sorted: Vec<String> = sorted_unique(&items)
        .iter()
        .map(|v| v.iter().collect())
        .collect();
    assert_eq!(sorted, vec!["a.css", "b.css"]);
}

#[test]
fn css_buffer_tracks_pieces() {
    let mut buffer = CssBuffer::new(true);
    buffer.push(Some(CssOrigin::ExtraCss), "a{}", true);
    buffer.push(Some(CssOrigin::FragmentCss), "", false);
    buffer.push(Some(CssOrigin::LinkedStylesheet), "b{}", false);
    let (raw, chunks) = buffer.into_parts();
    assert_eq!(raw.iter().collect::<String>(), "a{}\nb{}");
    let chunks = chunks.unwrap();
    assert_eq!(chunks.len(), 2);
    assert_eq!((chunks[0].start, chunks[0].end), (0, 4));
    assert_eq!((chunks[1].start, chunks[1].end), (4, 7));
    let untracked = CssBuffer::new(false);
    assert!(untracked.into_parts().1.is_none());
}

#[test]
fn full_url_resolution() {
    assert_eq!(full_url(None, "https://a.com/x.css"), "https://a.com/x.css");
    assert_eq!(full_url(None, "x.css"), "x.css");
    assert_eq!(
        full_url(Some("https://example.com/dir/page.html"), "x.css"),
        "https://example.com/dir/x.css"
    );
    assert_eq!(
        full_url(Some("https://example.com/"), "//cdn.example.com/x.css"),
        "https://cdn.example.com/x.css"
    );
    assert_eq!(scheme("file:///tmp/a"), "file");
    assert_eq!(scheme("no-colon"), "no-colon");
}

#[test]
fn error_messages() {
    let missing = InlineError::MissingStyleSheet {
        path: "a.css".to_string(),
    };
    assert_eq!(missing.to_string(), "Missing stylesheet file: a.css");
    assert!(missing.source().is_none());
    let io = InlineError::IO(std::io::Error::new(std::io::ErrorKind::Other, "boom"));
    assert_eq!(io.to_string(), "boom");
    assert!(io.source().is_some());
    let parse = InlineError::ParseError("bad".to_string());
    assert_eq!(parse.to_string(), "bad");
}

#[test]
fn style_attribute_syntax_errors() {
    let block = css_inline::inline(
        r#"<html><head><style>h1 { margin: 0 }</style></head><body><h1 style="{ color: red }">x</h1></body></html>"#,
    )
    .unwrap_err();
    assert_eq!(block.to_string(), "Invalid qualified rule");
    let token = css_inline::inline(
        r#"<html><head><style>h1 { margin: 0 }</style></head><body><h1 style="color red">x</h1></body></html>"#,
    )
    .unwrap_err();
    assert_eq!(token.to_string(), "Unexpected token: Ident(\"red\")");
    let cut = css_inline::inline(
        r#"<html><head><style>h1 { margin: 0 }</style></head><body><h1 style="color">x</h1></body></html>"#,
    )
    .unwrap_err();
    assert_eq!(cut.to_string(), "End of input");
}

#[test]
fn unsupported_selector_is_ignored() {
    let html = "<html><head><style>h1:unknown-pseudo { color: red } h1 { margin: 0 }</style></head><body><h1>x</h1></body></html>";
    assert_eq!(
        css_inline::inline(html).unwrap(),
        "<html><head></head><body><h1 style=\"margin: 0;\">x</h1></body></html>"
    );
}

#[test]
fn higher_specificity_wins_regardless_of_order() {
    let html = "<html><head><style>#t { color: blue } h1 { color: red }</style></head><body><h1 id=\"t\">x</h1></body></html>";
    assert_eq!(
        css_inline::inline(html).unwrap(),
        "<html><head></head><body><h1 id=\"t\" style=\"color: blue;\">x</h1></body></html>"
    );
}

#[test]
fn important_beats_higher_specificity() {
    let html = "<html><head><style>h1 { color: red !important } #t { color: blue }</style></head><body><h1 id=\"t\">x</h1></body></html>";
    assert_eq!(
        css_inline::inline(html).unwrap(),
        "<html><head></head><body><h1 id=\"t\" style=\"color: red !important;\">x</h1></body></html>"
    );
}

#[test]
fn loading_stylesheets_fails_without_the_features() {
    let html = "<html><head><link href=\"https://example.com/a.css\" rel=\"stylesheet\"></head><body></body></html>";
    match css_inline::inline(html) {
        Err(InlineError::IO(e)) => {
            assert_eq!(e.to_string(), "Loading external URLs requires the `http` feature")
        }
        _ => panic!("expected an input-output error"),
    }
    let local = "<html><head><link href=\"a.css\" rel=\"stylesheet\"></head><body></body></html>";
    match css_inline::inline(local) {
        Err(InlineError::IO(e)) => {
            assert_eq!(e.to_string(), "Loading local files requires the `file` feature")
        }
        _ => panic!("expected an input-output error"),
    }
    let inliner = CSSInliner::new(InlineOptions::default().load_remote_stylesheets(false));
    assert_eq!(
        inliner.inline(local).unwrap(),
        "<html><head></head><body></body></html>"
    );
}

#[test]
fn inline_to_appends_utf8() {
    let mut out = b"prefix:".to_vec();
    css_inline::inline_fragment_to("<p>é</p>", "p { color: red }", &mut out).unwrap();
    assert_eq!(
        String::from_utf8(out).unwrap(),
        "prefix:<p style=\"color: red;\">é</p>"
    );
}

#[test]
fn ranks_count_the_lower_items() {
    let lower = vec![
        vec![false, true, true],
        vec![false, false, false],
        vec![false, true, false],
    ];
    assert_eq!(count_ranks(&lower), vec![2, 0, 1]);
    assert_eq!(count_ranks(&Vec::new()), Vec::<u32>::new());
}

#[test]
fn test_inliner_sync_send() {
    fn assert_send<T: Send + Sync>() {}
    assert_send::<CSSInliner>();
    assert_send::<InlineOptions>();
}

#[test]
fn local_paths_lose_file_prefixes() {
    assert_eq!(local_path("file://file://styles/a.css"), "styles/a.css");
    assert_eq!(local_path("styles/a.css"), "styles/a.css");
    assert_eq!(local_path("file:/a.css"), "file:/a.css");
}

#[test]
fn file_errors_map_to_missing_stylesheet() {
    let missing = file_read_error("a.css", true, std::io::Error::from_raw_os_error(2));
    assert_eq!(missing.to_string(), "Missing stylesheet file: a.css");
    let other = file_read_error(
        "a.css",
        false,
        std::io::Error::new(std::io::ErrorKind::Other, "denied"),
    );
    assert_eq!(other.to_string(), "denied");
}

#[test]
fn locations_are_sorted_once_and_made_full() {
    let doc = parse_with_options(
        r#"<html><head><link href="b.css" rel="stylesheet"><link href="a.css" rel="stylesheet"><link href="b.css" rel="stylesheet"></head></html>"#,
        0,
        false,
    );
    let base = Some("https://example.com/dir/".to_string());
    assert_eq!(
        stylesheet_locations(&doc.document, &base),
        vec![
            "https://example.com/dir/a.css".to_string(),
            "https://example.com/dir/b.css".to_string()
        ]
    );
    assert_eq!(
        stylesheet_locations(&doc.document, &None),
        vec!["a.css".to_string(), "b.css".to_string()]
    );
}

#[test]
fn ranks_follow_the_specificity_of_selectors() {
    let html = r#"<html><head><style>#a { color: red } .b { color: green } p { color: blue }</style></head><body><p id="a" class="b">x</p></body></html>"#;
    assert_eq!(
        css_inline::inline(html).unwrap(),
        r#"<html><head></head><body><p class="b" id="a" style="color: red;">x</p></body></html>"#
    );
}

fn style_error(style: &str) -> String {
    let html = format!(
        r#"<html><head><style>h1 {{ margin: 0 }}</style></head><body><h1 style='{style}'>x</h1></body></html>"#
    );
    css_inline::inline(&html).unwrap_err().to_string()
}

#[test]
fn unexpected_token_descriptions() {
    assert_eq!(
        style_error("color 12"),
        "Unexpected token: Number { has_sign: false, value: 12.0, int_value: Some(12) }"
    );
    assert_eq!(
        style_error("color -007"),
        "Unexpected token: Number { has_sign: true, value: -7.0, int_value: Some(-7) }"
    );
    assert_eq!(
        style_error("color 10px"),
        "Unexpected token: Dimension { has_sign: false, value: 10.0, int_value: Some(10), unit: \"px\" }"
    );
    assert_eq!(style_error("color \"x y\""), "Unexpected token: QuotedString(\"x y\")");
    assert_eq!(style_error("color #123"), "Unexpected token: Hash(\"123\")");
    assert_eq!(style_error("color #abc"), "Unexpected token: IDHash(\"abc\")");
    assert_eq!(style_error("color red"), "Unexpected token: Ident(\"red\")");
}

struct GreenResolver;

impl css_inline::StylesheetResolver for GreenResolver {
    fn retrieve(&self, _location: &str) -> Result<String, InlineError> {
        Ok("h1 { color: green; }".to_string())
    }
}

#[test]
fn resolver_plays_no_part_without_loading() {
    let html = r#"<html><head><link href="a.css" rel="stylesheet"><style>h1 { color: blue }</style></head><body><h1>x</h1></body></html>"#;
    let default = CSSInliner::new(InlineOptions::default().load_remote_stylesheets(false))
        .inline(html)
        .expect("inlines");
    let custom = CSSInliner::new(
        InlineOptions::default()
            .load_remote_stylesheets(false)
            .resolver(GreenResolver),
    )
    .inline(html)
    .expect("inlines");
    assert_eq!(default, custom);
    assert_eq!(
        default,
        r#"<html><head></head><body><h1 style="color: blue;">x</h1></body></html>"#
    );
    // With loading, the resolver's stylesheet is read after the `style` element.
    let loaded = CSSInliner::new(InlineOptions::default().resolver(GreenResolver))
        .inline(html)
        .expect("inlines");
    assert_eq!(
        loaded,
        r#"<html><head></head><body><h1 style="color: green;">x</h1></body></html>"#
    );
}

struct RecordingResolver {
    asked: std::cell::RefCell<Vec<String>>,
}

impl css_inline::StylesheetResolver for RecordingResolver {
    fn retrieve(&self, location: &str) -> Result<String, InlineError> {
        self.asked.borrow_mut().push(location.to_string());
        if location == "b.css" {
            Err(InlineError::MissingStyleSheet { path: location.to_string() })
        } else {
            Ok("p { color: red; }".to_string())
        }
    }
}

#[test]
fn resolver_error_of_first_failing_location_is_returned() {
    let html = r#"<html><head><link href="c.css" rel="stylesheet"><link href="b.css" rel="stylesheet"><link href="a.css" rel="stylesheet"><link href="a.css" rel="stylesheet"></head><body><p>x</p></body></html>"#;
    let resolver = RecordingResolver { asked: std::cell::RefCell::new(Vec::new()) };
    let inliner = CSSInliner::new(InlineOptions::default().resolver(std::sync::Arc::new(resolver)));
    let result = inliner.inline(html);
    match result {
        Err(InlineError::MissingStyleSheet { path }) => assert_eq!(path, "b.css"),
        other => panic!("unexpected result: {:?}", other.map(|_| ())),
    }
    // Locations are asked for in sorted order, each once, until the first error.
    let asked = inliner.options.resolver.asked.borrow().clone();
    assert_eq!(asked, vec!["a.css".to_string(), "b.css".to_string()]);
    let mut target = b"prefix".to_vec();
    assert!(inliner.inline_to(html, &mut target).is_err());
    assert_eq!(target, b"prefix".to_vec());
}

#[test]
fn record_retrieved_appends_text_or_passes_error_on() {
    let ok = record_retrieved(vec!["a".to_string()], Ok("b".to_string())).expect("ok");
    assert_eq!(ok, vec!["a".to_string(), "b".to_string()]);
    let err = record_retrieved(
        vec!["a".to_string()],
        Err(InlineError::MissingStyleSheet { path: "x.css".to_string() }),
    );
    match err {
        Err(InlineError::MissingStyleSheet { path }) => assert_eq!(path, "x.css"),
        _ => panic!("the resolver's error is passed on"),
    }
}
