//! URLs as the crawler sees them: the text of a URL together with its scheme
//! and host, as the `url` crate reports them.

use vstd::prelude::*;
use vstd::string::*;
use url::ParseError as UrlError;
use crate::text_order::{comes_before, same_text, text_before};

verus! {

/// Why a text could not be read as a URL: the errors of the `url` crate's
/// parser, by their names.
#[derive(Clone, Copy, Debug, PartialEq, Eq, Structural)]
pub enum ParseError {
    /// The host is empty.
    EmptyHost,
    /// The host is no valid international domain name.
    IdnaError,
    /// The port is no valid port number.
    InvalidPort,
    /// The host is no valid IPv4 address.
    InvalidIpv4Address,
    /// The host is no valid IPv6 address.
    InvalidIpv6Address,
    /// The host holds a character that a domain may not hold.
    InvalidDomainCharacter,
    /// The text is a relative reference and no base URL was given.
    RelativeUrlWithoutBase,
    /// The text is a relative reference and the base URL cannot be a base.
    RelativeUrlWithCannotBeABaseBase,
    /// A URL that cannot be a base has no host to set.
    SetHostOnCannotBeABaseUrl,
    /// The URL is longer than four gigabytes.
    Overflow,
    /// An error that the parser did not have when this library was written.
    Other,
}

/// The mathematical value of a [`Url`].
pub struct UrlView {
    /// The canonical text of the URL. URLs are compared by it.
    pub text: Seq<char>,
    /// The scheme, in lower case, without the colon.
    pub scheme: Seq<char>,
    /// The host, if the URL has one.
    pub host: Option<Seq<char>>,
}

/// An absolute URL.
#[derive(Debug)]
pub struct Url {
    text: String,
    scheme: String,
    host: Option<String>,
}

impl View for Url {
    type V = UrlView;

    closed spec fn view(&self) -> UrlView {
        UrlView {
            text: self.text@,
            scheme: self.scheme@,
            host: match self.host {
                Some(h) => Some(h@),
                None => None,
            },
        }
    }
}

impl DeepView for Url {
    type V = UrlView;

    open spec fn deep_view(&self) -> UrlView {
        self@
    }
}

/// The value of a parse: the URL's value, or the error.
pub open spec fn outcome_view(outcome: Result<Url, ParseError>) -> Result<UrlView, ParseError> {
    match outcome {
        Ok(url) => Ok(url@),
        Err(e) => Err(e),
    }
}

/// What `url::Url::parse` makes of `input`.
pub uninterp spec fn parsed_url(input: Seq<char>) -> Result<UrlView, ParseError>;

/// What `url::Url::join` makes of `reference`, called on the URL that
/// `url::Url::parse` makes of `base`.
pub uninterp spec fn joined_url(base: Seq<char>, reference: Seq<char>) -> Result<UrlView, ParseError>;

/// Calls `url::Url::parse`. The result is a function of the input alone: on
/// success the URL's serialization, scheme and host string, on failure the
/// parser's error, variant for variant.
#[verifier::external_body]
fn parse_absolute(input: &str) -> (outcome: Result<Url, ParseError>)
    ensures
        outcome_view(outcome) == parsed_url(input@),
{
    let (text, scheme, host) = match url::Url::parse(input) {
        Ok(u) => (u.as_str().into(), u.scheme().into(), u.host_str().map(Into::into)),
        Err(e) => return Err(match e {
            UrlError::EmptyHost => ParseError::EmptyHost, UrlError::IdnaError => ParseError::IdnaError,
            UrlError::InvalidPort => ParseError::InvalidPort,
            UrlError::InvalidIpv4Address => ParseError::InvalidIpv4Address,
            UrlError::InvalidIpv6Address => ParseError::InvalidIpv6Address,
            UrlError::InvalidDomainCharacter => ParseError::InvalidDomainCharacter,
            UrlError::RelativeUrlWithoutBase => ParseError::RelativeUrlWithoutBase,
            UrlError::RelativeUrlWithCannotBeABaseBase => ParseError::RelativeUrlWithCannotBeABaseBase,
            UrlError::SetHostOnCannotBeABaseUrl => ParseError::SetHostOnCannotBeABaseUrl,
            UrlError::Overflow => ParseError::Overflow, _ => ParseError::Other,
        }),
    };
    Ok(Url { text, scheme, host })
}

/// Calls `url::Url::join` on the URL that `url::Url::parse` reads from
/// `base`. The result is a function of the two texts alone, reported as for
/// a parse; where `base` itself does not parse, its error is the result.
#[verifier::external_body]
fn join_reference(base: &str, reference: &str) -> (outcome: Result<Url, ParseError>)
    ensures
        outcome_view(outcome) == joined_url(base@, reference@),
{
    let (text, scheme, host) = match url::Url::parse(base).and_then(|b| b.join(reference)) {
        Ok(u) => (u.as_str().into(), u.scheme().into(), u.host_str().map(Into::into)),
        Err(e) => return Err(match e {
            UrlError::EmptyHost => ParseError::EmptyHost, UrlError::IdnaError => ParseError::IdnaError,
            UrlError::InvalidPort => ParseError::InvalidPort,
            UrlError::InvalidIpv4Address => ParseError::InvalidIpv4Address,
            UrlError::InvalidIpv6Address => ParseError::InvalidIpv6Address,
            UrlError::InvalidDomainCharacter => ParseError::InvalidDomainCharacter,
            UrlError::RelativeUrlWithoutBase => ParseError::RelativeUrlWithoutBase,
            UrlError::RelativeUrlWithCannotBeABaseBase => ParseError::RelativeUrlWithCannotBeABaseBase,
            UrlError::SetHostOnCannotBeABaseUrl => ParseError::SetHostOnCannotBeABaseUrl,
            UrlError::Overflow => ParseError::Overflow, _ => ParseError::Other,
        }),
    };
    Ok(Url { text, scheme, host })
}

impl Url {
    /// Parses an absolute URL.
    pub fn parse(input: &str) -> (outcome: Result<Url, ParseError>)
        ensures
            outcome_view(outcome) == parsed_url(input@),
    {
        parse_absolute(input)
    }

    /// Parses an absolute URL, as [`Url::parse`] does.
    pub fn from_str(input: &str) -> (outcome: Result<Url, ParseError>)
        ensures
            outcome_view(outcome) == parsed_url(input@),
    {
        Url::parse(input)
    }

    /// Resolves `reference` against this URL.
    pub fn join(&self, reference: &str) -> (outcome: Result<Url, ParseError>)
        ensures
            outcome_view(outcome) == joined_url(self@.text, reference@),
    {
        join_reference(self.text.as_str(), reference)
    }

    /// The canonical text of the URL.
    pub fn as_str(&self) -> (text: &str)
        ensures
            text@ == self@.text,
    {
        self.text.as_str()
    }

    /// The scheme of the URL.
    pub fn scheme(&self) -> (scheme: &str)
        ensures
            scheme@ == self@.scheme,
    {
        self.scheme.as_str()
    }

    /// The host of the URL, if it has one.
    pub fn host_str(&self) -> (host: Option<&str>)
        ensures
            host is Some == self@.host is Some,
            host is Some ==> host->0@ == self@.host->0,
    {
        match &self.host {
            Some(h) => Some(h.as_str()),
            None => None,
        }
    }

    /// Whether the two URLs have the same host, or both have none.
    pub fn same_host(&self, other: &Url) -> (same: bool)
        ensures
            same == (self@.host == other@.host),
    {
        match (&self.host, &other.host) {
            (Some(a), Some(b)) => same_text(a.as_str(), b.as_str()),
            (None, None) => true,
            _ => false,
        }
    }

    /// Whether this URL comes strictly before `other`: URLs are ordered as
    /// their texts are.
    pub fn precedes(&self, other: &Url) -> (before: bool)
        ensures
            before == text_before(self@.text, other@.text),
    {
        comes_before(self.text.as_str(), other.text.as_str())
    }
}

impl Clone for Url {
    fn clone(&self) -> (copy: Self)
        ensures
            copy@ == self@,
    {
        Url {
            text: self.text.clone(),
            scheme: self.scheme.clone(),
            host: match &self.host {
                Some(h) => Some(h.clone()),
                None => None,
            },
        }
    }
}

impl PartialEq for Url {
    /// URLs are equal when their texts are.
    fn eq(&self, other: &Url) -> (equal: bool) {
        same_text(self.text.as_str(), other.text.as_str())
    }
}

impl vstd::std_specs::cmp::PartialEqSpecImpl for Url {
    open spec fn obeys_eq_spec() -> bool {
        true
    }

    open spec fn eq_spec(&self, other: &Url) -> bool {
        self@.text == other@.text
    }
}

impl Eq for Url {}

} // verus!
