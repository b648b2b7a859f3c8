//! The key under which a crawl is registered: the host of a URL.

use vstd::prelude::*;
use vstd::string::*;
use crate::address::{outcome_view, parsed_url, ParseError, Url, UrlView};
use crate::text_order::{has_prefix, same_text, starts_with};

verus! {

/// `s` begins with neither `https://` nor `http://`.
pub open spec fn lacks_scheme(s: Seq<char>) -> bool {
    !has_prefix(s, "https://"@) && !has_prefix(s, "http://"@)
}

/// A first parse that calls for a second one with `https://` put in front:
/// the text was taken for a relative reference, and names no scheme.
pub open spec fn scheme_is_missing(s: Seq<char>, first: Result<UrlView, ParseError>) -> bool {
    first == Err::<UrlView, ParseError>(ParseError::RelativeUrlWithoutBase) && lacks_scheme(s)
}

/// The URL that `s` is read as: `s` itself, or `https://` followed by `s`
/// where the scheme is missing.
pub open spec fn with_scheme_added(s: Seq<char>) -> Result<UrlView, ParseError> {
    if scheme_is_missing(s, parsed_url(s)) {
        parsed_url("https://"@ + s)
    } else {
        parsed_url(s)
    }
}

/// The URL of a domain key: it must have a host.
pub open spec fn with_host(url: UrlView) -> Result<UrlView, ParseError> {
    if url.host is Some {
        Ok(url)
    } else {
        Err(ParseError::RelativeUrlWithoutBase)
    }
}

/// The domain key that `s` is read as.
pub open spec fn domain_of(s: Seq<char>) -> Result<UrlView, ParseError> {
    match with_scheme_added(s) {
        Ok(url) => with_host(url),
        Err(e) => Err(e),
    }
}

/// The host that a domain key stands for.
pub open spec fn host_of(key: UrlView) -> Seq<char> {
    key.host->0
}

/// The domain, that is the host, of a URL. Two domains are equal when their
/// hosts are, whatever else their URLs hold.
#[derive(Debug)]
pub struct CrawlDomain {
    url: Url,
}

impl View for CrawlDomain {
    type V = UrlView;

    closed spec fn view(&self) -> UrlView {
        self.url@
    }
}

/// The value of a domain key that was read: the value of its URL, or the
/// error.
pub open spec fn domain_view(outcome: Result<CrawlDomain, ParseError>) -> Result<
    UrlView,
    ParseError,
> {
    match outcome {
        Ok(domain) => Ok(domain@),
        Err(e) => Err(e),
    }
}

/// Whether a second parse with `https://` in front is called for.
pub fn needs_scheme(s: &str, first: &Result<Url, ParseError>) -> (missing: bool)
    ensures
        missing == scheme_is_missing(s@, outcome_view(*first)),
{
    match first {
        Err(ParseError::RelativeUrlWithoutBase) => !starts_with(s, "https://") && !starts_with(
            s,
            "http://",
        ),
        _ => false,
    }
}

/// Reads `s` as a URL, and assumes the scheme `https` where `s` names none.
pub fn attempt_add_scheme(s: &str) -> (outcome: Result<Url, ParseError>)
    ensures
        outcome_view(outcome) == with_scheme_added(s@),
{
    let url = Url::parse(s);
    if needs_scheme(s, &url) {
        let with_scheme = "https://".to_owned().concat(s);
        Url::parse(with_scheme.as_str())
    } else {
        url
    }
}

impl CrawlDomain {
    /// The URL of a domain has a host.
    #[verifier::type_invariant]
    spec fn has_host(self) -> bool {
        self.url@.host is Some
    }

    /// The domain of `url`, if it has a host.
    pub fn from_url(url: Url) -> (outcome: Result<CrawlDomain, ParseError>)
        ensures
            domain_view(outcome) == with_host(url@),
    {
        match url.host_str() {
            Some(_) => Ok(CrawlDomain { url }),
            None => Err(ParseError::RelativeUrlWithoutBase),
        }
    }

    /// Reads a domain from a URL, or from a URL without its scheme.
    pub fn from_str(s: &str) -> (outcome: Result<CrawlDomain, ParseError>)
        ensures
            domain_view(outcome) == domain_of(s@),
    {
        match attempt_add_scheme(s) {
            Ok(url) => CrawlDomain::from_url(url),
            Err(e) => Err(e),
        }
    }

    /// The domain as a string.
    pub fn domain(&self) -> (host: &str)
        ensures
            self@.host == Some(host@),
            host@ == host_of(self@),
    {
        proof {
            use_type_invariant(self);
        }
        match self.url.host_str() {
            Some(host) => host,
            None => {
                assert(false);
                ""
            },
        }
    }

    /// The URL that the domain was read from.
    pub fn as_ref(&self) -> (url: &Url)
        ensures
            url@ == self@,
    {
        &self.url
    }
}

impl Clone for CrawlDomain {
    fn clone(&self) -> (copy: Self)
        ensures
            copy@ == self@,
    {
        proof {
            use_type_invariant(self);
        }
        CrawlDomain { url: self.url.clone() }
    }
}

impl PartialEq for CrawlDomain {
    /// Domains are equal when their hosts are.
    fn eq(&self, other: &CrawlDomain) -> (equal: bool) {
        same_text(self.domain(), other.domain())
    }
}

impl vstd::std_specs::cmp::PartialEqSpecImpl for CrawlDomain {
    open spec fn obeys_eq_spec() -> bool {
        true
    }

    open spec fn eq_spec(&self, other: &CrawlDomain) -> bool {
        self@.host == other@.host
    }
}

impl Eq for CrawlDomain {}

impl std::str::FromStr for CrawlDomain {
    type Err = ParseError;

    /// Reads a domain as [`CrawlDomain::from_str`] does.
    fn from_str(s: &str) -> (outcome: Result<CrawlDomain, ParseError>)
        ensures
            domain_view(outcome) == domain_of(s@),
    {
        CrawlDomain::from_str(s)
    }
}

impl AsRef<Url> for CrawlDomain {
    /// The URL that the domain was read from.
    fn as_ref(&self) -> (url: &Url)
        ensures
            url@ == self@,
    {
        &self.url
    }
}

} // verus!
