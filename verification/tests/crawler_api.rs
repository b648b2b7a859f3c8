use web_crawler::address::Url;
use web_crawler::crawl_domain::CrawlDomain;
use web_crawler::crawler_api::add_domain::is_supported_scheme;
use web_crawler::crawler_api::{
    add_domain, get_domain_url_count, get_domain_urls, AddDomainError, DomainNotFound, DomainUrls,
    Domains, UrlListCountResult, UrlListResult,
};

fn key(text: &str) -> CrawlDomain {
    CrawlDomain::from_str(text).unwrap()
}

/// Registers the domain that `text` names, with an empty record.
fn post(domains: &mut Domains<DomainUrls>, text: &str) -> Result<CrawlDomain, AddDomainError> {
    add_domain(domains, key(text), DomainUrls::default())
}

/// Tests posting a simple URL.
#[test]
fn test_post() {
    let mut crawler = Domains::new();
    let url = "simple.test";
    assert_eq!(post(&mut crawler, url).unwrap().domain(), url)
}

/// Tests posting a URL with an invalid scheme.
#[test]
fn test_invalid_scheme_post() {
    let mut crawler = Domains::new();
    let url = "ftp://simple.test";
    assert!(post(&mut crawler, url).is_err())
}

/// Tests posting the same URL twice.
#[test]
fn test_duplicate_post() {
    let mut crawler = Domains::new();
    assert!(post(&mut crawler, "http://simple.test").is_ok());
    assert!(post(&mut crawler, "https://simple.test").is_err());
}

/// Tests getting a result from a posted URL.
#[test]
fn test_get_urls_good_domain() {
    let mut crawler = Domains::new();
    let crawl_domain = post(&mut crawler, "some.test").unwrap();
    assert!(get_domain_urls(&crawler, &key(crawl_domain.domain())).is_ok())
}

/// Tests getting a result from a URL that was not posted.
#[test]
fn test_get_urls_bad_domain() {
    let crawler: Domains<DomainUrls> = Domains::new();
    assert!(get_domain_urls(&crawler, &key("www.enhance.com")).is_err())
}

/// Tests getting a count from a posted URL.
#[test]
fn test_get_urls_count_good_domain() {
    let mut crawler = Domains::new();
    let crawl_domain = post(&mut crawler, "some.test").unwrap();
    assert!(get_domain_url_count(&crawler, &key(crawl_domain.domain())).is_ok())
}

/// Tests getting a count from a URL that was not posted.
#[test]
fn test_get_urls_count_bad_domain() {
    let crawler: Domains<DomainUrls> = Domains::new();
    assert!(get_domain_url_count(&crawler, &key("www.enhance.com")).is_err())
}

/// Tests the count of a posted URL of which nothing was crawled.
#[test]
fn test_get_urls_no_access() {
    let mut crawler = Domains::new();
    let crawl_domain = post(&mut crawler, "some.invalid").unwrap();
    assert_eq!(
        get_domain_url_count(&crawler, &key(crawl_domain.domain())).unwrap().url_count,
        0
    );
}

#[test]
fn new_registry_is_empty() {
    let domains: Domains<u32> = Domains::new();
    assert_eq!(domains.len(), 0);
    assert!(!domains.contains_key(&key("x.test")));
    let domains: Domains<u32> = Domains::default();
    assert_eq!(domains.len(), 0);
    assert_eq!(domains.get(&key("x.test")), None);
}

#[test]
fn add_domain_hands_the_key_back() {
    let mut domains = Domains::new();
    let added = add_domain(&mut domains, key("https://x.test/start.html"), 7u32).unwrap();
    assert_eq!(added.domain(), "x.test");
    assert_eq!(added.as_ref().as_str(), "https://x.test/start.html");
    assert_eq!(domains.len(), 1);
    assert_eq!(domains.get(&key("x.test")), Some(&7));
}

#[test]
fn unsupported_scheme_is_turned_down() {
    let mut domains = Domains::new();
    assert_eq!(
        add_domain(&mut domains, key("ftp://x.test"), 1u32).unwrap_err(),
        AddDomainError::SchemeNotSupported
    );
    assert_eq!(domains.len(), 0);
    assert!(!domains.contains_key(&key("x.test")));
    assert_eq!(domains.get(&key("ftp://x.test")), None);
    // The scheme is looked at before the registry.
    assert!(add_domain(&mut domains, key("https://x.test"), 2u32).is_ok());
    assert_eq!(
        add_domain(&mut domains, key("ftp://x.test"), 3u32).unwrap_err(),
        AddDomainError::SchemeNotSupported
    );
    assert_eq!(domains.get(&key("x.test")), Some(&2));
}

#[test]
fn second_registration_is_turned_down() {
    let mut domains = Domains::new();
    assert!(add_domain(&mut domains, key("http://simple.test"), 1u32).is_ok());
    assert_eq!(
        add_domain(&mut domains, key("https://simple.test/other"), 2u32).unwrap_err(),
        AddDomainError::DomainAlreadyAdded
    );
    assert_eq!(
        add_domain(&mut domains, key("simple.test"), 3u32).unwrap_err(),
        AddDomainError::DomainAlreadyAdded
    );
    assert_eq!(domains.len(), 1);
    assert_eq!(domains.get(&key("simple.test")), Some(&1));
}

#[test]
fn second_registration_leaves_the_record() {
    let mut domains = Domains::new();
    let mut record = DomainUrls::default();
    record.add_url(Url::parse("https://simple.test/").unwrap());
    assert!(add_domain(&mut domains, key("simple.test"), record).is_ok());
    assert_eq!(
        post(&mut domains, "simple.test").unwrap_err(),
        AddDomainError::DomainAlreadyAdded
    );
    let found = get_domain_urls(&domains, &key("simple.test")).unwrap();
    assert!(!found.crawl_completed);
    assert_eq!(found.urls, vec![Url::parse("https://simple.test/").unwrap()]);
}

#[test]
fn domains_are_kept_apart() {
    let mut domains = Domains::new();
    assert!(add_domain(&mut domains, key("a.test"), 1u32).is_ok());
    assert!(add_domain(&mut domains, key("b.test"), 2u32).is_ok());
    assert!(add_domain(&mut domains, key("http://127.0.0.1:8080/"), 3u32).is_ok());
    assert_eq!(domains.len(), 3);
    assert_eq!(domains.get(&key("https://b.test/page")), Some(&2));
    assert_eq!(domains.get(&key("a.test")), Some(&1));
    assert_eq!(domains.get(&key("127.0.0.1")), Some(&3));
    assert_eq!(domains.get(&key("c.test")), None);
    assert!(domains.contains_key(&key("a.test")));
    assert!(!domains.contains_key(&key("www.a.test")));
}

#[test]
fn insert_new_registers_once() {
    let mut domains = Domains::new();
    assert!(domains.insert_new(key("ftp://a.test"), 1u32));
    assert!(!domains.insert_new(key("https://a.test"), 2u32));
    assert_eq!(domains.get(&key("a.test")), Some(&1));
    assert_eq!(domains.len(), 1);
}

#[test]
fn supported_schemes_are_http_and_https() {
    assert!(is_supported_scheme("http"));
    assert!(is_supported_scheme("https"));
    assert!(!is_supported_scheme("ftp"));
    assert!(!is_supported_scheme("file"));
    assert!(!is_supported_scheme("HTTP"));
    assert!(!is_supported_scheme(""));
}

#[test]
fn unregistered_domain_is_not_found() {
    let mut domains = Domains::new();
    assert_eq!(get_domain_urls(&domains, &key("x.test")).unwrap_err(), DomainNotFound);
    assert_eq!(get_domain_url_count(&domains, &key("x.test")).unwrap_err(), DomainNotFound);
    post(&mut domains, "y.test").unwrap();
    assert_eq!(get_domain_urls(&domains, &key("x.test")).unwrap_err(), DomainNotFound);
    assert_eq!(get_domain_url_count(&domains, &key("x.test")).unwrap_err(), DomainNotFound);
}

#[test]
fn record_grows_and_completes() {
    let mut record = DomainUrls::default();
    assert!(!record.crawl_completed);
    assert_eq!(record.urls.len(), 0);
    let a = Url::parse("https://x.test/a.html").unwrap();
    let b = Url::parse("https://x.test/b.html").unwrap();
    record.add_url(b.clone());
    record.add_url(a.clone());
    assert!(!record.crawl_completed);
    assert_eq!(record.urls, vec![b.clone(), a.clone()]);
    record.complete();
    assert!(record.crawl_completed);
    assert_eq!(record.urls, vec![b, a]);
    record.complete();
    assert!(record.crawl_completed);
}

#[test]
fn results_copy_the_record() {
    let mut record = DomainUrls::default();
    let a = Url::parse("https://x.test/a.html").unwrap();
    let b = Url::parse("https://x.test/b.html").unwrap();
    record.add_url(a.clone());
    record.add_url(b.clone());

    let list = UrlListResult::create(&record);
    assert!(!list.crawl_completed);
    assert_eq!(list.urls, vec![a.clone(), b.clone()]);
    assert_eq!(
        UrlListCountResult::create(&record),
        UrlListCountResult { crawl_completed: false, url_count: 2 }
    );

    record.complete();
    assert!(UrlListResult::create(&record).crawl_completed);
    assert_eq!(
        UrlListCountResult::create(&record),
        UrlListCountResult { crawl_completed: true, url_count: 2 }
    );
}

#[test]
fn found_answers_for_a_record_or_none() {
    let mut record = DomainUrls::default();
    record.add_url(Url::parse("https://x.test/a.html").unwrap());
    record.complete();
    let list = UrlListResult::found(Some(&record)).unwrap();
    assert!(list.crawl_completed);
    assert_eq!(list.urls, vec![Url::parse("https://x.test/a.html").unwrap()]);
    assert_eq!(
        UrlListCountResult::found(Some(&record)).unwrap(),
        UrlListCountResult { crawl_completed: true, url_count: 1 }
    );
    assert_eq!(UrlListResult::found(None).unwrap_err(), DomainNotFound);
    assert_eq!(UrlListCountResult::found(None).unwrap_err(), DomainNotFound);
}

#[test]
fn queries_read_the_registered_record() {
    let mut domains = Domains::new();
    let mut record = DomainUrls::default();
    record.add_url(Url::parse("https://x.test/a.html").unwrap());
    record.add_url(Url::parse("https://x.test/b.html").unwrap());
    record.complete();
    assert!(add_domain(&mut domains, key("x.test"), record).is_ok());
    post(&mut domains, "y.test").unwrap();

    let list = get_domain_urls(&domains, &key("http://x.test/whatever")).unwrap();
    assert!(list.crawl_completed);
    assert_eq!(list.urls.len(), 2);
    assert_eq!(list.urls[0].as_str(), "https://x.test/a.html");
    assert_eq!(list.urls[1].as_str(), "https://x.test/b.html");
    assert_eq!(
        get_domain_url_count(&domains, &key("x.test")).unwrap(),
        UrlListCountResult { crawl_completed: true, url_count: 2 }
    );
    assert_eq!(
        get_domain_url_count(&domains, &key("y.test")).unwrap(),
        UrlListCountResult { crawl_completed: false, url_count: 0 }
    );
}
