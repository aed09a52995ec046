//! Inlines CSS into HTML `style` attributes.
//!
//! The document is parsed, the CSS of its `style` elements, of the stylesheets its `link`
//! elements refer to and of the options is gathered and read, each rule is applied to the
//! elements its selectors match, and the document is written back with the winning
//! declarations in each element's `style` attribute.
use vstd::prelude::*;
pub mod cascade;
pub mod cleanup;
pub mod cli;
pub mod css;
pub mod declarations;
pub mod dom;
pub mod error;
pub mod html;
pub mod inliner;
pub mod laws;
pub mod resolver;
pub mod serializer;
pub mod sources;
pub mod stylesheet;
pub mod text;
pub mod tree_builder;
pub mod urls;

pub use error::InlineError;
pub use inliner::{CSSInliner, InlineOptions};
pub use resolver::{DefaultStylesheetResolver, StylesheetResolver};
pub use url::Url;

verus! {

/// Inline CSS with default options.
pub fn inline(html: &str) -> (r: Result<String, error::InlineError>)
    ensures
        inliner::inline_outcome(inliner::default_options(), html@, None, r),
{
    inliner::CSSInliner::default().inline(html)
}

/// Inline CSS with default options and append the result, UTF-8 encoded, to `target`.
pub fn inline_to(html: &str, target: &mut Vec<u8>) -> (r: Result<(), error::InlineError>)
    ensures
        r is Err ==> final(target)@ == old(target)@,
        r is Ok ==> exists|s: String|
            #[trigger] inliner::inline_outcome(inliner::default_options(), html@, None, Ok::<String, error::InlineError>(s))
                && final(target)@ == old(target)@ + vstd::utf8::encode_utf8(s@),
{
    inliner::CSSInliner::default().inline_to(html, target)
}

/// Inline CSS into an HTML fragment with default options.
pub fn inline_fragment(html: &str, css: &str) -> (r: Result<String, error::InlineError>)
    ensures
        inliner::inline_outcome(inliner::default_options(), html@, Some(css), r),
{
    inliner::CSSInliner::default().inline_fragment(html, css)
}

/// Inline CSS into an HTML fragment with default options and append the result, UTF-8
/// encoded, to `target`.
pub fn inline_fragment_to(html: &str, css: &str, target: &mut Vec<u8>) -> (r: Result<(), error::InlineError>)
    ensures
        r is Err ==> final(target)@ == old(target)@,
        r is Ok ==> exists|s: String|
            #[trigger] inliner::inline_outcome(inliner::default_options(), html@, Some(css), Ok::<String, error::InlineError>(s))
                && final(target)@ == old(target)@ + vstd::utf8::encode_utf8(s@),
{
    inliner::CSSInliner::default().inline_fragment_to(html, css, target)
}

} // verus!
