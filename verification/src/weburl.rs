//! Addresses: parsing, resolving references and telling web addresses from
//! others.

use vstd::prelude::*;

use crate::text::{find, same_text};

verus! {

/// The serialization of the URL that `url::Url::parse` reads from `input`, or
/// `None` if it rejects it.
pub uninterp spec fn url_parsed(input: Seq<char>) -> Option<Seq<char>>;

/// The serialization of the URL that `url::Url::join` makes of `reference`,
/// with the URL read from `base` as the base; `None` if either is rejected.
pub uninterp spec fn url_joined(base: Seq<char>, reference: Seq<char>) -> Option<Seq<char>>;

/// The part of a serialized URL before its first colon.
pub open spec fn scheme_of(text: Seq<char>) -> Seq<char> {
    match find(text, seq![':']) {
        Some(i) => text.take(i),
        None => text,
    }
}

/// The schemes that are fetched.
pub open spec fn web_scheme(scheme: Seq<char>) -> bool {
    scheme == "http"@ || scheme == "https"@
}

/// Whether `input` is an absolute address with a scheme that is fetched.
pub open spec fn web_address(input: Seq<char>) -> bool {
    match url_parsed(input) {
        Some(text) => web_scheme(scheme_of(text)),
        None => false,
    }
}

/// Calls `url::Url::parse`, and on success `as_str` and `scheme` of the URL.
///
/// The first part of the result is the serialization, named `url_parsed`. The
/// second is the scheme: the serialization begins with it, and the colon after
/// it is the first one.
#[verifier::external_body]
fn parse_url(input: &str) -> (r: Option<(String, String)>)
    ensures
        match r {
            Some(found) => url_parsed(input@) == Some(found.0@) && found.1@ == scheme_of(found.0@),
            None => url_parsed(input@) is None,
        },
{
    match ::url::Url::parse(input) {
        Ok(found) => Some((found.as_str().to_owned(), found.scheme().to_owned())),
        Err(_) => None,
    }
}

/// Calls `url::Url::join` on the URL read from `base`, and on success `as_str`
/// and `scheme` of the result.
///
/// The first part of the result is the serialization, named `url_joined`. The
/// second is the scheme: the serialization begins with it, and the colon after
/// it is the first one.
#[verifier::external_body]
fn join_url(base: &str, reference: &str) -> (r: Option<(String, String)>)
    ensures
        match r {
            Some(found) => url_joined(base@, reference@) == Some(found.0@) && found.1@ == scheme_of(
                found.0@,
            ),
            None => url_joined(base@, reference@) is None,
        },
{
    match ::url::Url::parse(base) {
        Ok(from) => match from.join(reference) {
            Ok(found) => Some((found.as_str().to_owned(), found.scheme().to_owned())),
            Err(_) => None,
        },
        Err(_) => None,
    }
}

/// An absolute address.
#[derive(Debug)]
pub struct Url {
    /// The serialization.
    pub text: String,
    /// What stands before the first colon of the serialization.
    pub scheme: String,
}

impl Url {
    /// The scheme is that of the serialization.
    pub open spec fn wf(&self) -> bool {
        self.scheme@ == scheme_of(self.text@)
    }

    /// Reads an absolute address.
    pub fn parse(input: &str) -> (r: Option<Url>)
        ensures
            match r {
                Some(url) => url_parsed(input@) == Some(url.text@) && url.wf(),
                None => url_parsed(input@) is None,
            },
    {
        match parse_url(input) {
            Some((text, scheme)) => Some(Url { text, scheme }),
            None => None,
        }
    }

    /// Resolves a reference against this address.
    pub fn join(&self, reference: &str) -> (r: Option<Url>)
        ensures
            match r {
                Some(url) => url_joined(self.text@, reference@) == Some(url.text@) && url.wf(),
                None => url_joined(self.text@, reference@) is None,
            },
    {
        match join_url(self.text.as_str(), reference) {
            Some((text, scheme)) => Some(Url { text, scheme }),
            None => None,
        }
    }

    /// Whether the address has a scheme that is fetched.
    pub fn is_web(&self) -> (r: bool)
        ensures
            r == web_scheme(self.scheme@),
    {
        same_text(self.scheme.as_str(), "http") || same_text(self.scheme.as_str(), "https")
    }
}

/// Whether a source can be fetched from this address.
pub fn valid_url(value: &str) -> (r: bool)
    ensures
        r == web_address(value@),
{
    match Url::parse(value) {
        Some(url) => url.is_web(),
        None => false,
    }
}

} // verus!
