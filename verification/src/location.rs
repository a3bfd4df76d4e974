//! Absolute URLs, parsed by the `url` crate and held as plain strings.
use vstd::prelude::*;
use crate::bindings::{parse_url, join_url, url_parse, url_join, opt_view, scheme_leads};

verus! {

/// The parts of a URL that the library reads.
pub struct UrlView {
    /// The serialization of the URL.
    pub text: Seq<char>,
    /// The scheme, lower-cased, without the `:` delimiter.
    pub scheme: Seq<char>,
    /// The host, if the URL has one.
    pub host: Option<Seq<char>>,
}

/// An absolute URL.
pub struct ParsedUrl {
    serialization: String,
    scheme: String,
    host: Option<String>,
}

/// The error of a failed URL parse.
#[derive(Debug)]
pub struct UrlParseError {
    /// The error the `url` crate gave.
    pub cause: url::ParseError,
}

impl View for ParsedUrl {
    type V = UrlView;

    closed spec fn view(&self) -> UrlView {
        UrlView { text: self.serialization@, scheme: self.scheme@, host: opt_view(self.host) }
    }
}

/// The view of the URL that `url::Url::parse(input)` gives, where it succeeds.
pub open spec fn parsed_view(input: Seq<char>) -> UrlView {
    let p = url_parse(input)->0;
    UrlView { text: p.0, scheme: p.1, host: p.2 }
}

/// The view of the URL that `url::Url::join` gives for `base` and `input`, where it
/// succeeds.
pub open spec fn joined_view(base: Seq<char>, input: Seq<char>) -> UrlView {
    let p = url_join(base, input)->0;
    UrlView { text: p.0, scheme: p.1, host: p.2 }
}

impl ParsedUrl {
    #[verifier::type_invariant]
    closed spec fn inv(self) -> bool {
        scheme_leads((self.serialization@, self.scheme@, opt_view(self.host)))
    }

    /// Parses an absolute URL; fails exactly where the `url` crate fails.
    pub fn parse(input: &str) -> (r: Result<ParsedUrl, UrlParseError>)
        ensures
            r is Ok <==> url_parse(input@) is Some,
            r matches Ok(u) ==> u@ == parsed_view(input@),
    {
        match parse_url(input) {
            Ok(p) => {
                let (serialization, scheme, host) = p;
                Ok(ParsedUrl { serialization, scheme, host })
            },
            Err(e) => Err(UrlParseError { cause: e }),
        }
    }

    /// Resolves `input` against this URL; fails exactly where the `url` crate fails.
    pub fn join(&self, input: &str) -> (r: Result<ParsedUrl, UrlParseError>)
        ensures
            r is Ok <==> url_join(self@.text, input@) is Some,
            r matches Ok(u) ==> u@ == joined_view(self@.text, input@),
    {
        match join_url(self.serialization.as_str(), input) {
            Ok(p) => {
                let (serialization, scheme, host) = p;
                Ok(ParsedUrl { serialization, scheme, host })
            },
            Err(e) => Err(UrlParseError { cause: e }),
        }
    }

    /// The serialization of the URL.
    pub fn as_str(&self) -> (r: &str)
        ensures
            r@ == self@.text,
            crate::text::is_prefix_of(self@.scheme.push(':'), self@.text),
    {
        proof {
            use_type_invariant(self);
        }
        self.serialization.as_str()
    }

    /// The scheme of the URL, lower-cased, without the `:` delimiter.
    pub fn scheme(&self) -> (r: &str)
        ensures
            r@ == self@.scheme,
            crate::text::is_prefix_of(self@.scheme.push(':'), self@.text),
    {
        proof {
            use_type_invariant(self);
        }
        self.scheme.as_str()
    }

    /// The host of the URL, if it has one.
    pub fn host_str(&self) -> (r: Option<&str>)
        ensures
            match r {
                Some(h) => self@.host == Some(h@),
                None => self@.host is None,
            },
    {
        match &self.host {
            Some(h) => Some(h.as_str()),
            None => None,
        }
    }

    /// Whether two URLs have the same serialization, which is how the `url` crate compares
    /// them.
    pub fn same_as(&self, other: &ParsedUrl) -> (r: bool)
        ensures
            r == (self@.text == other@.text),
    {
        crate::text::str_equal(self.serialization.as_str(), other.serialization.as_str())
    }

    /// The serialization of the URL, as an owned string.
    pub fn to_text(&self) -> (r: String)
        ensures
            r@ == self@.text,
    {
        self.serialization.clone()
    }
}

impl Clone for ParsedUrl {
    fn clone(&self) -> (r: Self)
        ensures
            r == *self,
    {
        proof {
            use_type_invariant(self);
        }
        let host = match &self.host {
            Some(h) => Some(h.clone()),
            None => None,
        };
        ParsedUrl { serialization: self.serialization.clone(), scheme: self.scheme.clone(), host }
    }
}

} // verus!
