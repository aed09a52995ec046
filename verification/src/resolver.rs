//! Retrieving linked stylesheets.
use vstd::prelude::*;
use crate::error::InlineError;
use crate::text::{push_str, str_chars, starts_with};

verus! {

/// An `Unsupported` input-output error with the given message
/// (`std::io::Error::new(ErrorKind::Unsupported, reason)`).
#[verifier::external_body]
fn unsupported_error(reason: &str) -> std::io::Error {
    std::io::Error::new(std::io::ErrorKind::Unsupported, reason)
}

/// Whether `location` starts with `http`, which covers `https` too.
pub fn is_remote(location: &str) -> (r: bool)
    ensures
        r == (location@.len() >= "http"@.len() && location@.subrange(0, "http"@.len() as int)
            == "http"@),
{
    let l = str_chars(location);
    let p = str_chars("http");
    starts_with(&l, &p)
}

/// Blocking way of resolving stylesheets from various sources.
///
/// Loading from the network and from files is not built in: by default a location that
/// starts with `http` and any other location both give an `Unsupported` input-output error.
pub trait StylesheetResolver {
    /// Whether `text` is a stylesheet that this resolver may give for `location`; a resolver
    /// that says nothing of it may give any text.
    open spec fn gives(&self, location: Seq<char>, text: Seq<char>) -> bool {
        true
    }

    /// Retrieve a stylesheet from a network or local filesystem location.
    fn retrieve(&self, location: &str) -> (r: Result<String, InlineError>)
        ensures
            r matches Ok(text) ==> self.gives(location@, text@),
        default_ensures
            r matches Err(InlineError::IO(_)),
    {
        if is_remote(location) {
            Err(InlineError::IO(unsupported_error("Loading external URLs requires the `http` feature")))
        } else {
            Err(InlineError::IO(unsupported_error("Loading local files requires the `file` feature")))
        }
    }

    /// Retrieve a stylesheet from a network location. By default this fails with the error
    /// that `unsupported` makes of `Loading external URLs is not supported: ` and the URL.
    fn retrieve_from_url(&self, url: &str) -> (r: Result<String, InlineError>)
        default_ensures
            r is Err,
    {
        let mut reason = String::new();
        push_str(&mut reason, "Loading external URLs is not supported: ");
        push_str(&mut reason, url);
        Err(self.unsupported(reason.as_str()))
    }

    /// Return the "Unsupported" kind of error.
    fn unsupported(&self, reason: &str) -> (r: InlineError)
        default_ensures
            r matches InlineError::IO(_),
    {
        InlineError::IO(unsupported_error(reason))
    }
}

/// A local location with every leading `file://` taken off.
pub open spec fn local_path_of(location: Seq<char>) -> Seq<char>
    decreases location.len(),
{
    if location.len() >= 7 && location.subrange(0, 7) == "file://"@ {
        local_path_of(location.subrange(7, location.len() as int))
    } else {
        location
    }
}

/// The path of a local stylesheet location: the location with every leading `file://` taken
/// off.
pub fn local_path(location: &str) -> (r: String)
    ensures
        r@ == local_path_of(location@),
{
    proof {
        reveal_strlit("file://");
    }
    let l = str_chars(location);
    let prefix = str_chars("file://");
    let mut start: usize = 0;
    assert(prefix@.len() == 7);
    assert(l@.subrange(0, l.len() as int) =~= l@);
    while l.len() >= 7 && start <= l.len() - 7 && crate::text::has_prefix_at(&l, start, &prefix)
        invariant
            start <= l.len(),
            l@ == location@,
            prefix@ == "file://"@,
            prefix.len() == 7,
            "file://"@.len() == 7,
            local_path_of(location@) == local_path_of(l@.subrange(start as int, l.len() as int)),
        decreases l.len() - start,
    {
        proof {
            let rest = l@.subrange(start as int, l.len() as int);
            assert(rest.subrange(0, 7) =~= l@.subrange(start as int, start + 7));
            assert(rest.subrange(7, rest.len() as int) =~= l@.subrange(start + 7, l.len() as int));
            assert(local_path_of(rest) == local_path_of(rest.subrange(7, rest.len() as int)));
        }
        start = start + 7;
    }
    proof {
        let rest = l@.subrange(start as int, l.len() as int);
        if rest.len() >= 7 {
            assert(rest.subrange(0, 7) =~= l@.subrange(start as int, start + 7));
        }
        assert(local_path_of(rest) == rest);
    }
    crate::text::range_string(&l, start, l.len())
}

/// The error for a local stylesheet that cannot be read: a missing file is reported as a
/// missing stylesheet with its path, any other failure as the input-output error.
pub fn file_read_error(path: &str, not_found: bool, error: std::io::Error) -> (r: InlineError)
    ensures
        not_found ==> (r matches InlineError::MissingStyleSheet { path: p } && p@ == path@),
        !not_found ==> r == InlineError::IO(error),
{
    if not_found {
        InlineError::MissingStyleSheet { path: path.to_string() }
    } else {
        InlineError::IO(error)
    }
}

/// Default stylesheet resolver.
#[derive(Debug, Default)]
pub struct DefaultStylesheetResolver;

impl StylesheetResolver for DefaultStylesheetResolver {
    /// The default resolver gives no stylesheet.
    open spec fn gives(&self, location: Seq<char>, text: Seq<char>) -> bool {
        false
    }
}

/// A shared resolver resolves as the resolver it holds.
impl<T: StylesheetResolver> StylesheetResolver for std::sync::Arc<T> {
    open spec fn gives(&self, location: Seq<char>, text: Seq<char>) -> bool {
        (**self).gives(location, text)
    }

    fn retrieve(&self, location: &str) -> (r: Result<String, InlineError>) {
        (**self).retrieve(location)
    }

    fn retrieve_from_url(&self, url: &str) -> (r: Result<String, InlineError>) {
        (**self).retrieve_from_url(url)
    }

    fn unsupported(&self, reason: &str) -> (r: InlineError) {
        (**self).unsupported(reason)
    }
}

} // verus!
