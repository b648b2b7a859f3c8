//! The registration of a domain for crawling.

use vstd::prelude::*;
use vstd::string::*;
use crate::address::UrlView;
use crate::crawl_domain::{host_of, CrawlDomain};
use crate::crawler_api::domains::Domains;
use crate::text_order::same_text;

verus! {

/// Why a domain was not registered.
#[derive(Clone, Copy, Debug, PartialEq, Eq, Structural)]
pub enum AddDomainError {
    /// The URL of the domain has a scheme other than `http` and `https`.
    SchemeNotSupported,
    /// The domain is registered already.
    DomainAlreadyAdded,
}

/// The schemes of the domains that are crawled: `http` and `https`.
pub open spec fn scheme_supported(scheme: Seq<char>) -> bool {
    scheme == "http"@ || scheme == "https"@
}

/// What stands in the way of registering `domain_key` with `domains`, if
/// anything does. The scheme is looked at first.
pub open spec fn registration_error<R>(domains: Map<Seq<char>, R>, domain_key: UrlView) -> Option<
    AddDomainError,
> {
    if !scheme_supported(domain_key.scheme) {
        Some(AddDomainError::SchemeNotSupported)
    } else if domains.dom().contains(host_of(domain_key)) {
        Some(AddDomainError::DomainAlreadyAdded)
    } else {
        None
    }
}

/// The registry after the attempt to register `domain_key` with `urls`:
/// one entry more where nothing stood in the way, else as it was.
pub open spec fn registered<R>(domains: Map<Seq<char>, R>, domain_key: UrlView, urls: R) -> Map<
    Seq<char>,
    R,
> {
    if registration_error(domains, domain_key) is None {
        domains.insert(host_of(domain_key), urls)
    } else {
        domains
    }
}

/// A domain is registered once: after the attempt to register a domain, a
/// further attempt for a domain with the same host is turned down as already
/// added, and leaves the registry, and with it what the first attempt
/// registered, as it was. Both domains are taken to have a supported scheme.
pub proof fn lemma_registered_once<R>(
    domains: Map<Seq<char>, R>,
    first_key: UrlView,
    first_urls: R,
    second_key: UrlView,
    second_urls: R,
)
    requires
        scheme_supported(first_key.scheme),
        scheme_supported(second_key.scheme),
        host_of(first_key) == host_of(second_key),
    ensures
        registration_error(registered(domains, first_key, first_urls), second_key) == Some(
            AddDomainError::DomainAlreadyAdded,
        ),
        registered(registered(domains, first_key, first_urls), second_key, second_urls)
            == registered(domains, first_key, first_urls),
        registration_error(domains, first_key) is None ==> registered(
            registered(domains, first_key, first_urls),
            second_key,
            second_urls,
        )[host_of(first_key)] == first_urls,
{
}

/// Whether domains with this scheme are crawled.
pub fn is_supported_scheme(scheme: &str) -> (supported: bool)
    ensures
        supported == scheme_supported(scheme@),
{
    same_text(scheme, "http") || same_text(scheme, "https")
}

/// Registers `domain_key` with `urls`, which stands for the record of its
/// crawl, and hands the key back. A domain with another scheme than `http`
/// and `https` is turned down, and so is one that is registered already; the
/// registry is then left as it was.
pub fn add_domain<R>(domains: &mut Domains<R>, domain_key: CrawlDomain, urls: R) -> (added: Result<
    CrawlDomain,
    AddDomainError,
>)
    ensures
        final(domains)@ == registered(old(domains)@, domain_key@, urls),
        match added {
            Ok(key) => key@ == domain_key@ && registration_error(old(domains)@, domain_key@)
                is None,
            Err(e) => registration_error(old(domains)@, domain_key@) == Some(e),
        },
{
    if !is_supported_scheme(domain_key.as_ref().scheme()) {
        return Err(AddDomainError::SchemeNotSupported);
    }
    if domains.insert_new(domain_key.clone(), urls) {
        Ok(domain_key)
    } else {
        Err(AddDomainError::DomainAlreadyAdded)
    }
}

} // verus!
