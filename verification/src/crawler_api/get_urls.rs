//! What a query about a registered domain is answered with.

use vstd::prelude::*;
use crate::address::Url;
use crate::crawl_domain::{host_of, CrawlDomain};
use crate::crawler_api::domains::{DomainRecord, DomainUrls, Domains};

verus! {

/// The domain that was asked about is not registered.
#[derive(Clone, Copy, Debug, PartialEq, Eq, Structural)]
pub struct DomainNotFound;

/// The URLs crawled so far in a domain.
#[derive(Debug)]
pub struct UrlListResult {
    /// Whether the crawl of the domain has ended.
    pub crawl_completed: bool,
    /// The URLs crawled so far.
    pub urls: Vec<Url>,
}

impl View for UrlListResult {
    type V = DomainRecord;

    open spec fn view(&self) -> DomainRecord {
        DomainRecord { crawl_completed: self.crawl_completed, urls: self.urls.deep_view() }
    }
}

impl UrlListResult {
    /// The state of the record at this moment.
    pub fn create(domain_urls: &DomainUrls) -> (result: Self)
        ensures
            result@ == domain_urls@,
    {
        let mut urls: Vec<Url> = Vec::new();
        let mut i: usize = 0;
        while i < domain_urls.urls.len()
            invariant
                i <= domain_urls.urls.len(),
                urls.deep_view() == domain_urls.urls.deep_view().take(i as int),
            decreases domain_urls.urls.len() - i,
        {
            let ghost copied = urls.deep_view();
            let url = domain_urls.urls[i].clone();
            urls.push(url);
            assert(urls.deep_view() =~= copied.push(url@));
            assert(urls.deep_view() =~= domain_urls.urls.deep_view().take(i as int + 1));
            i += 1;
        }
        assert(urls.deep_view() =~= domain_urls.urls.deep_view());
        UrlListResult { crawl_completed: domain_urls.crawl_completed, urls }
    }

    /// The answer to a query for which `record` was found in the registry:
    /// the state of the record, or that the domain is not registered.
    pub fn found(record: Option<&DomainUrls>) -> (answer: Result<Self, DomainNotFound>)
        ensures
            answer is Ok <==> record is Some,
            answer is Ok ==> answer->Ok_0@ == record->0@,
    {
        match record {
            Some(domain_urls) => Ok(UrlListResult::create(domain_urls)),
            None => Err(DomainNotFound),
        }
    }
}

/// The number of URLs crawled so far in a domain.
#[derive(Clone, Copy, Debug, PartialEq, Eq, Structural)]
pub struct UrlListCountResult {
    /// Whether the crawl of the domain has ended.
    pub crawl_completed: bool,
    /// The number of URLs crawled so far.
    pub url_count: usize,
}

impl UrlListCountResult {
    /// The state of the record at this moment, with the URLs counted.
    pub fn create(domain_urls: &DomainUrls) -> (result: Self)
        ensures
            result.crawl_completed == domain_urls@.crawl_completed,
            result.url_count == domain_urls@.urls.len(),
    {
        UrlListCountResult {
            crawl_completed: domain_urls.crawl_completed,
            url_count: domain_urls.urls.len(),
        }
    }

    /// The answer to a query for which `record` was found in the registry:
    /// the state of the record with the URLs counted, or that the domain is
    /// not registered.
    pub fn found(record: Option<&DomainUrls>) -> (answer: Result<Self, DomainNotFound>)
        ensures
            answer is Ok <==> record is Some,
            answer is Ok ==> answer->Ok_0.crawl_completed == record->0@.crawl_completed
                && answer->Ok_0.url_count == record->0@.urls.len(),
    {
        match record {
            Some(domain_urls) => Ok(UrlListCountResult::create(domain_urls)),
            None => Err(DomainNotFound),
        }
    }
}

/// The URLs crawled so far in the domain `domain_key`, if it is registered.
pub fn get_domain_urls(domains: &Domains<DomainUrls>, domain_key: &CrawlDomain) -> (found: Result<
    UrlListResult,
    DomainNotFound,
>)
    ensures
        found is Ok <==> domains@.dom().contains(host_of(domain_key@)),
        found is Ok ==> found->Ok_0@ == domains@[host_of(domain_key@)]@,
{
    UrlListResult::found(domains.get(domain_key))
}

/// The number of URLs crawled so far in the domain `domain_key`, if it is
/// registered.
pub fn get_domain_url_count(domains: &Domains<DomainUrls>, domain_key: &CrawlDomain) -> (found:
    Result<UrlListCountResult, DomainNotFound>)
    ensures
        found is Ok <==> domains@.dom().contains(host_of(domain_key@)),
        found is Ok ==> found->Ok_0.crawl_completed == domains@[host_of(
            domain_key@,
        )]@.crawl_completed && found->Ok_0.url_count == domains@[host_of(domain_key@)]@.urls.len(),
{
    UrlListCountResult::found(domains.get(domain_key))
}

} // verus!
