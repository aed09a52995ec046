use css_inline::{CSSInliner, InlineOptions};

fn html_with(style: impl std::fmt::Display, body: impl std::fmt::Display) -> String {
    format!(
        "<html><head><style>{}</style></head><body>{}</body></html>",
        style, body
    )
}

fn html_body(body: impl std::fmt::Display) -> String {
    format!("<html><head></head><body>{}</body></html>", body)
}

fn assert_inlined(
    style: impl std::fmt::Display,
    body: impl std::fmt::Display,
    expected: impl std::fmt::Display,
) {
    let html = html_with(style, body);
    let inlined = css_inline::inline(&html).unwrap();
    assert_eq!(inlined, html_body(expected))
}


const FRAGMENT: &str = r#"<main>
<h1>Hello</h1>
<section>
<p>who am i</p>
</section>
</main>"#;
const CSS: &str = r#"
p {
    color: red;
}

h1 {
    color: blue;
}
"#;
const EXPECTED_INLINED_FRAGMENT: &str = "<main>\n<h1 style=\"color: blue;\">Hello</h1>\n<section>\n<p style=\"color: red;\">who am i</p>\n</section>\n</main>";

#[test]
fn no_existing_style() {
    // When no "style" attributes exist
    assert_inlined(
        r#"h1, h2 { color:red; }
strong { text-decoration:none }
p { font-size:2px }
p.footer { font-size: 1px}"#,
        r#"<h1>Big Text</h1>
<p><strong>Yes!</strong></p>
<p class="footer">Foot notes</p>"#,
        // Then all styles should be added to new "style" attributes
        r#"<h1 style="color: red;">Big Text</h1>
<p style="font-size: 2px;"><strong style="text-decoration: none;">Yes!</strong></p>
<p class="footer" style="font-size: 1px;">Foot notes</p>"#
    )
}

#[test]
fn ignore_inlining_attribute_tag() {
    // When an HTML tag contains `data-css-inline="ignore"`
    assert_inlined(
        "h1 { color:blue; }",
        r#"<h1 data-css-inline="ignore">Big Text</h1>"#,
        // Then it should be skipped
        r#"<h1 data-css-inline="ignore">Big Text</h1>"#
    )
}

#[test]
fn ignore_inlining_attribute_style() {
    // When a `style` tag contains `data-css-inline="ignore"`
    let html = r#"
<html>
<head>
<style data-css-inline="ignore">
h1 { color: blue; }
</style>
</head>
<body>
<h1>Big Text</h1>
</body>
</html>"#;
    let result = css_inline::inline(html).unwrap();
    // Then it should be skipped
    assert!(result.ends_with(
        r#"<body>
<h1>Big Text</h1>

</body></html>"#
    ))
}

#[test]
fn keep_attribute_style() {
    // When a `style` tag contains `data-css-inline="keep"`
    let html = r#"
<html>
<head>
<style data-css-inline="keep">
h1 { color: blue; }
</style>
</head>
<body>
<h1>Big Text</h1>
</body>
</html>"#;
    let result = css_inline::inline(html).unwrap();
    // Then it should be kept as is even if the configuration implies removing style tags
    assert_eq!(
        result,
        r#"<html><head>
<style data-css-inline="keep">
h1 { color: blue; }
</style>
</head>
<body>
<h1 style="color: blue;">Big Text</h1>

</body></html>"#
    );
}

#[test]
fn ignore_inlining_attribute_link() {
    // When a `link` tag contains `data-css-inline="ignore"`
    let html = r#"
<html>
<head>
<link href="tests/external.css" rel="stylesheet" data-css-inline="ignore">
</head>
<body>
<h1>Big Text</h1>
</body>
</html>"#;
    let result = css_inline::inline(html).unwrap();
    // Then it should be skipped
    assert!(result.ends_with(
        r#"<body>
<h1>Big Text</h1>

</body></html>"#
    ))
}

#[test]
fn specificity_same_selector() {
    assert_inlined(
        r#"
.test-class {
    padding-top: 15px;
    padding: 10px;
    padding-left: 12px;
}"#,
        r#"<a class="test-class">Test</a>"#,
        // Then the final style should come from the more specific selector
        r#"<a class="test-class" style="padding-top: 15px;padding: 10px;padding-left: 12px;">Test</a>"#
    )
}

#[test]
fn specificity_different_selectors() {
    assert_inlined(
        r#"
.test { padding-left: 16px; }
h1 { padding: 0; }"#,
        r#"<h1 class="test"></h1>"#,
        r#"<h1 class="test" style="padding: 0;padding-left: 16px;"></h1>"#
    )
}

#[test]
fn specificity_different_selectors_existing_style() {
    assert_inlined(
        r#"
.test { padding-left: 16px; }
h1 { padding: 0; }"#,
        r#"<h1 class="test" style="color: blue;"></h1>"#,
        r#"<h1 class="test" style="padding: 0;padding-left: 16px;color: blue"></h1>"#
    )
}

#[test]
fn specificity_merge_with_existing_style() {
    assert_inlined(
        ".test { padding: 0; }",
        r#"<h1 class="test" style="padding-left: 16px"></h1>"#,
        r#"<h1 class="test" style="padding: 0;padding-left: 16px"></h1>"#
    )
}

#[test]
fn overlap_styles() {
    // When two selectors match the same element
    assert_inlined(
        r#"
.test-class {
    color: #ffffff;
}
a {
    color: #17bebb;
}"#,
        r#"<a class="test-class" href="https://example.com">Test</a>"#,
        // Then the final style should come from the more specific selector
        r#"<a class="test-class" href="https://example.com" style="color: #ffffff;">Test</a>"#
    )
}

#[test]
fn simple_merge() {
    // When "style" attributes exist and collides with values defined in "style" tag
    let style = "h1 { color:red; }";
    let html = html_with(style, r#"<h1 style="font-size: 1px">Big Text</h1>"#);
    let inlined = css_inline::inline(&html).unwrap();
    // Then new styles should be merged with the existing ones
    let option_1 = html_body(r#"<h1 style="font-size: 1px;color: red">Big Text</h1>"#);
    let option_2 = html_body(r#"<h1 style="color: red;font-size: 1px">Big Text</h1>"#);
    let valid = (inlined == option_1) || (inlined == option_2);
    assert!(valid, "{}", inlined);
}

#[test]
fn overloaded_styles() {
    // When there is a style, applied to an ID
    assert_inlined(
        "h1 { color: red; } #test { color: blue; }",
        r#"<h1 id="test">Hello world!</h1>"#,
        // Then it should be preferred over a more generic style
        r#"<h1 id="test" style="color: blue;">Hello world!</h1>"#
    )
}

#[test]
fn important() {
    // `!important` rules should override existing inline styles
    assert_inlined(
        "h1 { color: blue !important; }",
        r#"<h1 style="color: red;">Big Text</h1>"#,
        r#"<h1 style="color: blue">Big Text</h1>"#
    )
}

#[test]
fn important_with_space_at_the_end() {
    assert_inlined(
        "h1 { color: blue !important  ; }",
        r#"<h1 style="color: red;">Big Text</h1>"#,
        r#"<h1 style="color: blue">Big Text</h1>"#
    )
}

#[test]
fn important_no_rule_exists() {
    // `!important` rules should override existing inline styles
    assert_inlined(
        "h1 { color: blue !important; }",
        r#"<h1 style="margin:0">Big Text</h1>"#,
        r#"<h1 style="color: blue;margin: 0">Big Text</h1>"#
    )
}

#[test]
fn important_multiple_rules() {
    // `!important` rules should override other rules with the same specificity.
    assert_inlined(
        ".blue { color: blue !important; } .reset { color: unset }",
        r#"<h1 class="blue reset">Big Text</h1>"#,
        r#"<h1 class="blue reset" style="color: blue !important;">Big Text</h1>"#
    );
    // check in both directions
    assert_inlined(
        ".reset { color: unset } .blue { color: blue !important; }",
        r#"<h1 class="blue reset">Big Text</h1>"#,
        r#"<h1 class="blue reset" style="color: blue !important;">Big Text</h1>"#
    );
}

#[test]
fn important_more_specific() {
    // `!important` rules should override other important rules with less specificity.
    assert_inlined(
        "h1 { color: unset !important } #title { color: blue !important; }",
        r#"<h1 id="title">Big Text</h1>"#,
        r#"<h1 id="title" style="color: blue !important;">Big Text</h1>"#
    );
}

#[test]
fn important_inline_wins_over_stylesheet_important() {
    // Inline `!important` rules should override stylesheet `!important` rules.
    // Per CSS spec: "Inline important styles take precedence over all other important author styles"
    // See: https://developer.mozilla.org/en-US/docs/Web/CSS/Reference/Values/important#inline_styles
    assert_inlined(
        "h1 { color: blue !important; }",
        r#"<h1 style="color: red !important;">Big Text</h1>"#,
        r#"<h1 style="color: red !important">Big Text</h1>"#
    );
}

#[test]
fn font_family_quoted() {
    // When property value contains double quotes
    assert_inlined(
        r#"h1 { font-family: "Open Sans", sans-serif; }"#,
        r#"<h1>Hello world!</h1>"#,
        // Then it should be replaced with single quotes
        r#"<h1 style="font-family: 'Open Sans', sans-serif;">Hello world!</h1>"#
    )
}

#[test]
fn font_family_quoted_with_existing_inline_style() {
    // When property value contains double quotes
    assert_inlined(
        r#"h1 { font-family: "Open Sans", sans-serif; }"#,
        r#"<h1 style="whitespace: nowrap">Hello world!</h1>"#,
        // Then it should be replaced with single quotes
        r#"<h1 style="font-family: 'Open Sans', sans-serif;whitespace: nowrap">Hello world!</h1>"#
    )
}

#[test]
fn font_family_quoted_with_inline_style_override() {
    // When property value contains double quotes
    assert_inlined(
        r#"h1 { font-family: "Open Sans", sans-serif !important; }"#,
        r#"<h1 style="font-family: Helvetica; whitespace: nowrap">Hello world!</h1>"#,
        // Then it should be replaced with single quotes
        r#"<h1 style="font-family: 'Open Sans', sans-serif;whitespace: nowrap">Hello world!</h1>"#
    )
}

#[test]
fn other_property_quoted() {
    // When property value contains double quotes
    assert_inlined(
        r#"h1 { --bs-font-sant-serif: system-ui,-applie-system,"helvetica neue"; }"#,
        r#"<h1>Hello world!</h1>"#,
        // Then it should be replaced with single quotes
        r#"<h1 style="--bs-font-sant-serif: system-ui,-applie-system,'helvetica neue';">Hello world!</h1>"#
    )
}

#[test]
fn href_attribute_unchanged() {
    // All HTML attributes should be serialized as is
    let html = r#"<html>
<head>
    <style>h1 { color:blue; }</style>
</head>
<body>
    <h1>Big Text</h1>
    <a href="https://example.org/test?a=b&c=d">Link</a>
</body>
</html>"#;
    let inlined = css_inline::inline(html).unwrap();
    assert_eq!(
        inlined,
        r#"<html><head>
    
</head>
<body>
    <h1 style="color: blue;">Big Text</h1>
    <a href="https://example.org/test?a=b&amp;c=d">Link</a>

</body></html>"#
    );
}

#[test]
fn complex_child_selector() {
    let html = r#"<html>
   <head>
      <style>.parent {
         overflow: hidden;
         box-shadow: 0 4px 10px 0px rgba(0, 0, 0, 0.1);
         }
         .parent > table > tbody > tr > td,
         .parent > table > tbody > tr > td > div {
         border-radius: 3px;
         }
      </style>
   </head>
   <body>
      <div class="parent">
         <table>
            <tbody>
               <tr>
                  <td>
                     <div>
                        Test
                     </div>
                  </td>
               </tr>
            </tbody>
         </table>
      </div></body></html>"#;
    let inlined = css_inline::inline(html).unwrap();
    assert_eq!(
        inlined,
        r#"<html><head>
      
   </head>
   <body>
      <div class="parent" style="overflow: hidden;box-shadow: 0 4px 10px 0px rgba(0, 0, 0, 0.1);">
         <table>
            <tbody>
               <tr>
                  <td style="border-radius: 3px;">
                     <div style="border-radius: 3px;">
                        Test
                     </div>
                  </td>
               </tr>
            </tbody>
         </table>
      </div></body></html>"#
    );
}

#[test]
fn existing_styles() {
    // When there is a `style` attribute on a tag that contains a rule
    // And the `style` tag contains the same rule applicable to that tag
    assert_inlined(
        "h1 { color: red; }",
        r#"<h1 style="color: blue">Hello world!</h1>"#,
        // Then the existing rule should be preferred
        r#"<h1 style="color: blue">Hello world!</h1>"#
    )
}

#[test]
fn existing_styles_multiple_tags() {
    // When there are `style` attribute on tags that contains rules
    // And the `style` tag contains the same rule applicable to those tags
    assert_inlined(
        "h1 { color: red; }",
        r#"<h1 style="color: blue">Hello world!</h1><h1 style="color: blue">Hello world!</h1>"#,
        // Then the existing rule should be preferred
        r#"<h1 style="color: blue">Hello world!</h1><h1 style="color: blue">Hello world!</h1>"#
    )
}

#[test]
fn existing_styles_with_merge() {
    // When there is a `style` attribute on a tag that contains a rule
    // And the `style` tag contains the same rule applicable to that tag
    // And there is a new rule in the `style` tag
    assert_inlined(
        "h1 { color: red; font-size:14px; }",
        r#"<h1 style="color: blue">Hello world!</h1>"#,
        // Then the existing rule should be preferred
        // And the new style should be merged
        r#"<h1 style="font-size: 14px;color: blue">Hello world!</h1>"#
    )
}

#[test]
fn existing_styles_with_merge_multiple_tags() {
    // When there are non-empty `style` attributes on tags
    // And the `style` tag contains the same rule applicable to those tags
    // And there is a new rule in the `style` tag
    assert_inlined(
        "h1 { color: red; font-size:14px; }",
        r#"<h1 style="color: blue">Hello world!</h1><h1 style="color: blue">Hello world!</h1>"#,
        // Then the existing rule should be preferred
        // And the new style should be merged
        r#"<h1 style="font-size: 14px;color: blue">Hello world!</h1><h1 style="font-size: 14px;color: blue">Hello world!</h1>"#
    )
}

#[test]
fn empty_style() {
    // When the style tag is empty
    assert_inlined(
        "",
        r#"<h1>Hello world!</h1>"#,
        // Then the body should remain the same
        r#"<h1>Hello world!</h1>"#
    )
}

#[test]
fn media_query_ignore() {
    // When the style value includes @media query
    assert_inlined(
        r#"@media screen and (max-width: 992px) {
  body {
    background-color: blue;
  }
}"#,
        "<h1>Hello world!</h1>",
        "<h1>Hello world!</h1>"
    )
}

#[test]
fn remove_style_tag() {
    let html = html_with(
        "@media (max-width: 600px) { h1 { font-size: 18px; } }\nh1 {background-color: blue;}",
        "<h1>Hello world!</h1>"
    );
    let result = css_inline::inline(&html).unwrap();
    assert_eq!(result, "<html><head></head><body><h1 style=\"background-color: blue;\">Hello world!</h1></body></html>")
}

#[test]
fn remove_multiple_style_tags() {
    let html = r#"
<html>
<head>
<style>
h1 {
    text-decoration: none;
}
@media (max-width: 600px) { h1 { font-size: 18px; } }
</style>
<style>
.test-class {
        color: #ffffff;
}
a {
        color: #17bebb;
}
</style>
</head>
<body>
<a class="test-class" href="https://example.com">Test</a>
<h1>Test</h1>
</body>
</html>
    "#;
    let result = css_inline::inline(html).unwrap();
    assert_eq!(
        result,
        r#"<html><head>


</head>
<body>
<a class="test-class" href="https://example.com" style="color: #ffffff;">Test</a>
<h1 style="text-decoration: none;">Test</h1>


    </body></html>"#
    )
}

#[test]
fn inline_to() {
    let html = html_with("h1 { color: blue }", r#"<h1>Big Text</h1>"#);
    let mut out = Vec::new();
    css_inline::inline_to(&html, &mut out).unwrap();
    assert_eq!(
        String::from_utf8_lossy(&out),
        "<html><head></head><body><h1 style=\"color: blue;\">Big Text</h1></body></html>"
    )
}

#[test]
fn nth_child_selector() {
    let html = r#"
<html>
<head>
<style>tbody tr:nth-child(odd) td {background-color:grey;}</style>
</head>
<body>
<table>
   <tbody>
      <tr>
         <td>Test</td>
         <td>Test</td>
      </tr>
      <tr>
         <td>Test</td>
         <td>Test</td>
      </tr>
      <tr>
         <td>Test</td>
         <td>Test</td>
      </tr>
      <tr>
         <td>Test</td>
         <td>Test</td>
      </tr>
   </tbody>
</table>
</body>
</html>"#;
    let inlined = css_inline::inline(html).expect("Failed to inline");
    assert_eq!(
        inlined,
        r#"<html><head>

</head>
<body>
<table>
   <tbody>
      <tr>
         <td style="background-color: grey;">Test</td>
         <td style="background-color: grey;">Test</td>
      </tr>
      <tr>
         <td>Test</td>
         <td>Test</td>
      </tr>
      <tr>
         <td style="background-color: grey;">Test</td>
         <td style="background-color: grey;">Test</td>
      </tr>
      <tr>
         <td>Test</td>
         <td>Test</td>
      </tr>
   </tbody>
</table>

</body></html>"#
    );
}

#[test]
fn inline_fragment() {
    let inlined = css_inline::inline_fragment(FRAGMENT, CSS).unwrap();
    assert_eq!(inlined, EXPECTED_INLINED_FRAGMENT);
}

#[test]
fn inline_fragment_to() {
    let mut out = Vec::new();
    css_inline::inline_fragment_to(FRAGMENT, CSS, &mut out).unwrap();
    assert_eq!(String::from_utf8_lossy(&out), EXPECTED_INLINED_FRAGMENT)
}

#[test]
fn inline_fragment_empty() {
    let inlined = css_inline::inline_fragment("", "").unwrap();
    assert_eq!(inlined, "");
}

#[test]
fn styles_reach_template_contents() {
    let html = r#"<html><head><style>p { color: red; }</style></head><body><template><p>x</p></template></body></html>"#;
    assert_eq!(
        css_inline::inline(html).expect("inlines"),
        r#"<html><head></head><body><template><p style="color: red;">x</p></template></body></html>"#
    );
}
