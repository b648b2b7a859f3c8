use web_crawler::address::{ParseError, Url};
use web_crawler::crawl_domain::{attempt_add_scheme, needs_scheme, CrawlDomain};

#[test]
fn test_from_good_url() {
    let url = Url::parse("https://www.enhance.com").unwrap();
    let crawl_domain = CrawlDomain::from_str(url.as_str()).unwrap();
    assert_eq!(url, *crawl_domain.as_ref())
}

#[test]
fn test_missing_scheme() {
    let url = "www.enhance.com/hello/world.html";
    let crawl_domain = CrawlDomain::from_str(url).unwrap();
    assert_eq!(crawl_domain.domain(), "www.enhance.com");
}

#[test]
fn test_ip_domain() {
    // IP addresses are not strictly domains, but they are taken as such.
    let url = "http://127.0.0.1/";
    let crawl_domain = CrawlDomain::from_str(url).unwrap();
    assert_eq!(crawl_domain.domain(), "127.0.0.1");
}

#[test]
fn missing_scheme_is_taken_as_https() {
    let crawl_domain = CrawlDomain::from_str("www.enhance.com/hello/world.html").unwrap();
    assert_eq!(crawl_domain.as_ref().as_str(), "https://www.enhance.com/hello/world.html");
    assert_eq!(crawl_domain.as_ref().scheme(), "https");
}

#[test]
fn given_scheme_is_kept() {
    let crawl_domain = CrawlDomain::from_str("ftp://x.test").unwrap();
    assert_eq!(crawl_domain.as_ref().scheme(), "ftp");
    assert_eq!(crawl_domain.domain(), "x.test");
    let crawl_domain = CrawlDomain::from_str("http://x.test/a").unwrap();
    assert_eq!(crawl_domain.as_ref().as_str(), "http://x.test/a");
}

#[test]
fn url_without_host_is_no_domain() {
    assert_eq!(
        CrawlDomain::from_str("mailto:rms@example.net").unwrap_err(),
        ParseError::RelativeUrlWithoutBase
    );
    assert_eq!(
        CrawlDomain::from_str("data:text/plain,Stuff").unwrap_err(),
        ParseError::RelativeUrlWithoutBase
    );
    assert_eq!(
        CrawlDomain::from_url(Url::parse("unix:/run/foo.socket").unwrap()).unwrap_err(),
        ParseError::RelativeUrlWithoutBase
    );
    // A host followed by a port reads as a scheme followed by a path.
    assert_eq!(
        CrawlDomain::from_str("x.test:8080").unwrap_err(),
        ParseError::RelativeUrlWithoutBase
    );
}

#[test]
fn text_that_is_no_url_is_no_domain() {
    assert_eq!(CrawlDomain::from_str("https://").unwrap_err(), ParseError::EmptyHost);
    assert_eq!(CrawlDomain::from_str("").unwrap_err(), ParseError::EmptyHost);
    assert_eq!(
        CrawlDomain::from_str("https://x.test:99999").unwrap_err(),
        ParseError::InvalidPort
    );
    assert_eq!(CrawlDomain::from_str("a b.test").unwrap_err(), ParseError::IdnaError);
}

#[test]
fn from_url_keeps_the_url() {
    let url = Url::parse("http://x.test/a.html").unwrap();
    let crawl_domain = CrawlDomain::from_url(url.clone()).unwrap();
    assert_eq!(*crawl_domain.as_ref(), url);
    assert_eq!(crawl_domain.domain(), "x.test");
}

#[test]
fn domains_are_equal_by_host() {
    let a = CrawlDomain::from_str("http://simple.test").unwrap();
    let b = CrawlDomain::from_str("https://simple.test/some/page.html").unwrap();
    let c = CrawlDomain::from_str("https://www.simple.test").unwrap();
    let d = CrawlDomain::from_str("https://Simple.test").unwrap();
    assert_eq!(a, b);
    assert_ne!(a, c);
    assert_eq!(a, d);
    assert_eq!(a.clone(), a);
}

#[test]
fn needs_scheme_on_relative_text_without_scheme() {
    let relative: Result<Url, ParseError> = Err(ParseError::RelativeUrlWithoutBase);
    let invalid: Result<Url, ParseError> = Err(ParseError::EmptyHost);
    let parsed: Result<Url, ParseError> = Url::parse("https://x.test/");
    assert!(needs_scheme("x.test", &relative));
    assert!(needs_scheme("x.test/https://", &relative));
    assert!(!needs_scheme("https://x.test", &relative));
    assert!(!needs_scheme("http://x.test", &relative));
    assert!(!needs_scheme("x.test", &invalid));
    assert!(!needs_scheme("https://x.test/", &parsed));
}

#[test]
fn attempt_add_scheme_parses_once_or_twice() {
    assert_eq!(attempt_add_scheme("x.test").unwrap().as_str(), "https://x.test/");
    assert_eq!(attempt_add_scheme("http://x.test").unwrap().as_str(), "http://x.test/");
    assert_eq!(attempt_add_scheme("mailto:a@x.test").unwrap().as_str(), "mailto:a@x.test");
    assert_eq!(attempt_add_scheme("https://").unwrap_err(), ParseError::EmptyHost);
    assert_eq!(attempt_add_scheme("").unwrap_err(), ParseError::EmptyHost);
}

#[test]
fn domain_parses_from_a_string() {
    let crawl_domain: CrawlDomain = "www.enhance.com".parse().unwrap();
    assert_eq!(crawl_domain.domain(), "www.enhance.com");
    let url: &Url = AsRef::<Url>::as_ref(&crawl_domain);
    assert_eq!(url.as_str(), "https://www.enhance.com/");
    assert_eq!("mailto:a@x.test".parse::<CrawlDomain>().unwrap_err(), ParseError::RelativeUrlWithoutBase);
}
