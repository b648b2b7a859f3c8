//! A single-domain web crawler: the traversal engine, the domain keys and the
//! registry of crawled domains, with their behaviour stated in contracts.
//!
//! The library fetches nothing and shares nothing between threads. A crawl
//! is a [`CrawlStreamState`] that names the next URL to fetch and takes the
//! outcome of the fetch, the parsed page or the error; the registry is a
//! [`crawler_api::Domains`] that its user puts behind the locks of their
//! choice.

pub mod address;
pub mod crawl_domain;
pub mod crawl_run;
pub mod crawl_stream;
pub mod crawler_api;
pub mod links;
pub mod ordered;
pub mod text_order;
pub mod visited;

pub use address::{ParseError, Url};
pub use crawl_domain::CrawlDomain;
pub use crawl_stream::{CrawlResult, CrawlStreamState, FetchError};
