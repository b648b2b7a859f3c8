use web_crawler::address::{ParseError, Url};

#[test]
fn parse_keeps_text_scheme_and_host() {
    let url = Url::parse("https://www.enhance.com/hello/world.html").unwrap();
    assert_eq!(url.as_str(), "https://www.enhance.com/hello/world.html");
    assert_eq!(url.scheme(), "https");
    assert_eq!(url.host_str(), Some("www.enhance.com"));
}

#[test]
fn parse_gives_the_canonical_text() {
    let url = Url::parse("HTTPS://Example.COM").unwrap();
    assert_eq!(url.as_str(), "https://example.com/");
    assert_eq!(url.scheme(), "https");
    assert_eq!(url.host_str(), Some("example.com"));
}

#[test]
fn from_str_is_parse() {
    let url = Url::from_str("https://www.enhance.com/").unwrap();
    assert_eq!(url, Url::parse("https://www.enhance.com/").unwrap());
}

#[test]
fn parse_without_scheme_is_relative() {
    assert_eq!(Url::parse("www.enhance.com").unwrap_err(), ParseError::RelativeUrlWithoutBase);
    assert_eq!(Url::parse("/a/b.html").unwrap_err(), ParseError::RelativeUrlWithoutBase);
}

#[test]
fn parse_hands_the_error_of_the_parser_on() {
    assert_eq!(Url::parse("https://").unwrap_err(), ParseError::EmptyHost);
    assert_eq!(Url::parse("https://x.test:99999/").unwrap_err(), ParseError::InvalidPort);
    assert_eq!(Url::parse("https://192.168.0.257/").unwrap_err(), ParseError::InvalidIpv4Address);
    assert_eq!(Url::parse("https://[::1::]/").unwrap_err(), ParseError::InvalidIpv6Address);
    assert_eq!(Url::parse("foo://a<b/").unwrap_err(), ParseError::InvalidDomainCharacter);
    assert_eq!(Url::parse("https://a b.test/").unwrap_err(), ParseError::IdnaError);
    assert_eq!(Url::parse("").unwrap_err(), ParseError::RelativeUrlWithoutBase);
}

#[test]
fn url_without_host() {
    let url = Url::parse("mailto:rms@example.net").unwrap();
    assert_eq!(url.scheme(), "mailto");
    assert_eq!(url.host_str(), None);
}

#[test]
fn join_resolves_against_the_base() {
    let base = Url::parse("https://example.net/a/b.html").unwrap();
    assert_eq!(base.join("c.png").unwrap().as_str(), "https://example.net/a/c.png");
    assert_eq!(base.join("/v1/meta").unwrap().as_str(), "https://example.net/v1/meta");
    assert_eq!(base.join("//eve.com/b").unwrap().as_str(), "https://eve.com/b");
    assert_eq!(base.join("http://eve.com/b").unwrap().as_str(), "http://eve.com/b");
    assert_eq!(base.join("http://eve.com/b").unwrap().host_str(), Some("eve.com"));
}

#[test]
fn join_fails_on_a_broken_reference() {
    let base = Url::parse("https://example.net/a/b.html").unwrap();
    assert_eq!(base.join("https://").unwrap_err(), ParseError::EmptyHost);
    assert_eq!(base.join("//x.test:99999/").unwrap_err(), ParseError::InvalidPort);
    let mail = Url::parse("mailto:rms@example.net").unwrap();
    assert_eq!(mail.join("c.png").unwrap_err(), ParseError::RelativeUrlWithCannotBeABaseBase);
}

#[test]
fn urls_are_equal_by_their_text() {
    let a = Url::parse("https://example.net").unwrap();
    let b = Url::parse("https://example.net/").unwrap();
    let c = Url::parse("https://example.net/c").unwrap();
    assert_eq!(a, b);
    assert_ne!(a, c);
    assert_eq!(a.clone(), a);
}

#[test]
fn same_host_compares_hosts() {
    let a = Url::parse("https://x.test/a.html").unwrap();
    let b = Url::parse("http://x.test/b.html").unwrap();
    let c = Url::parse("https://other.test/c.html").unwrap();
    let m = Url::parse("mailto:rms@example.net").unwrap();
    let d = Url::parse("data:text/plain,Stuff").unwrap();
    assert!(a.same_host(&b));
    assert!(!a.same_host(&c));
    assert!(!a.same_host(&m));
    assert!(!m.same_host(&a));
    assert!(m.same_host(&d));
}

#[test]
fn precedes_orders_by_text() {
    let a = Url::parse("https://x.test/a.html").unwrap();
    let b = Url::parse("https://x.test/b.html").unwrap();
    let short = Url::parse("https://x.test/a").unwrap();
    assert!(a.precedes(&b));
    assert!(!b.precedes(&a));
    assert!(!a.precedes(&a));
    assert!(short.precedes(&a));
    assert!(!a.precedes(&short));
}
