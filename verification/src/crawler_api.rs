//! The registry of crawled domains: which domains were registered, what the
//! crawl of each has found so far, and whether it has ended.

pub mod add_domain;
pub mod domains;
pub mod get_urls;

pub use add_domain::{add_domain, AddDomainError};
pub use domains::{DomainUrls, Domains};
pub use get_urls::{
    get_domain_url_count, get_domain_urls, DomainNotFound, UrlListCountResult, UrlListResult,
};
