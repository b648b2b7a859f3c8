use select::document::Document;
use web_crawler::address::{ParseError, Url};
use web_crawler::links::{
    follow_targets, is_relative, keep_in_domain, link_targets, links_of_document, resolve_link,
};

fn url(text: &str) -> Url {
    Url::parse(text).unwrap()
}

fn texts(urls: &[Url]) -> Vec<String> {
    urls.iter().map(|u| u.as_str().to_string()).collect()
}

const PAGE: &str = r#"<!DOCTYPE html>
<html>
  <head>
    <link rel="stylesheet" href="/styles.css">
    <link rel="icon">
    <script src="/script.js"></script>
  </head>
  <body>
    <a href="b.html">next</a>
    <a name="top">no target</a>
    <p><a href="https://other.test/c.html">elsewhere</a></p>
    <img src="/picture.png">
    <a href="https://x.test/d.html#part">absolute</a>
    <a href="https://">broken</a>
    <a href="mailto:someone@x.test">mail</a>
  </body>
</html>"#;

#[test]
fn link_targets_reads_anchors_and_links() {
    let targets = link_targets(&Document::from(PAGE));
    let expected: Vec<Option<String>> = vec![
        Some("/styles.css".to_string()),
        None,
        Some("b.html".to_string()),
        None,
        Some("https://other.test/c.html".to_string()),
        Some("https://x.test/d.html#part".to_string()),
        Some("https://".to_string()),
        Some("mailto:someone@x.test".to_string()),
    ];
    assert_eq!(targets, expected);
}

#[test]
fn link_targets_of_a_page_without_links() {
    assert_eq!(link_targets(&Document::from("<html><body><p>nothing</p></body></html>")), vec![]);
    assert_eq!(link_targets(&Document::from("")), vec![]);
    assert_eq!(link_targets(&Document::from("plain text, no markup")), vec![]);
    assert_eq!(link_targets(&Document { nodes: vec![] }), vec![]);
}

#[test]
fn is_relative_tells_the_relative_reference() {
    assert!(is_relative(&Err(ParseError::RelativeUrlWithoutBase)));
    assert!(!is_relative(&Err(ParseError::EmptyHost)));
    assert!(!is_relative(&Err(ParseError::RelativeUrlWithCannotBeABaseBase)));
    assert!(!is_relative(&Ok(url("https://x.test/"))));
}

#[test]
fn resolve_link_takes_absolute_targets_as_they_are() {
    let page = url("https://x.test/dir/a.html");
    assert_eq!(
        resolve_link(&page, "https://other.test/c.html").unwrap().as_str(),
        "https://other.test/c.html"
    );
    assert_eq!(
        resolve_link(&page, "mailto:someone@x.test").unwrap().as_str(),
        "mailto:someone@x.test"
    );
}

#[test]
fn resolve_link_resolves_relative_targets() {
    let page = url("https://x.test/dir/a.html");
    assert_eq!(resolve_link(&page, "b.html").unwrap().as_str(), "https://x.test/dir/b.html");
    assert_eq!(resolve_link(&page, "/b.html").unwrap().as_str(), "https://x.test/b.html");
    assert_eq!(resolve_link(&page, "../b.html").unwrap().as_str(), "https://x.test/b.html");
    assert_eq!(resolve_link(&page, "#top").unwrap().as_str(), "https://x.test/dir/a.html#top");
    assert_eq!(resolve_link(&page, "//y.test/b").unwrap().as_str(), "https://y.test/b");
}

#[test]
fn resolve_link_drops_what_does_not_parse() {
    let page = url("https://x.test/dir/a.html");
    assert_eq!(resolve_link(&page, "https://").unwrap_err(), ParseError::EmptyHost);
    assert_eq!(resolve_link(&page, "https://x.test:99999/").unwrap_err(), ParseError::InvalidPort);
    assert_eq!(resolve_link(&page, "//x.test:99999/").unwrap_err(), ParseError::InvalidPort);
}

#[test]
fn keep_in_domain_keeps_the_host_of_the_page() {
    let page = url("https://x.test/a.html");
    assert_eq!(
        keep_in_domain(&page, Ok(url("https://x.test/b.html"))),
        Some(url("https://x.test/b.html"))
    );
    assert_eq!(
        keep_in_domain(&page, Ok(url("http://x.test/b.html"))),
        Some(url("http://x.test/b.html"))
    );
    assert_eq!(keep_in_domain(&page, Ok(url("https://other.test/c.html"))), None);
    assert_eq!(keep_in_domain(&page, Ok(url("https://www.x.test/"))), None);
    assert_eq!(keep_in_domain(&page, Ok(url("mailto:someone@x.test"))), None);
    assert_eq!(keep_in_domain(&page, Err(ParseError::EmptyHost)), None);
    assert_eq!(keep_in_domain(&page, Err(ParseError::RelativeUrlWithoutBase)), None);
}

#[test]
fn keep_in_domain_compares_addresses_too() {
    let page = url("http://127.0.0.1:1234/simple.html");
    assert_eq!(
        keep_in_domain(&page, Ok(url("http://127.0.0.1:1234/b.html"))),
        Some(url("http://127.0.0.1:1234/b.html"))
    );
    assert_eq!(keep_in_domain(&page, Ok(url("http://127.0.0.2:1234/b.html"))), None);
    assert_eq!(keep_in_domain(&page, Ok(url("mailto:someone@x.test"))), None);
}

#[test]
fn follow_targets_filters_in_order() {
    let page = url("https://x.test/dir/a.html");
    let targets = vec![
        Some("b.html".to_string()),
        None,
        Some("https://other.test/c.html".to_string()),
        Some("/e.html".to_string()),
        Some("https://".to_string()),
        Some("b.html".to_string()),
    ];
    let links = follow_targets(&page, &targets);
    assert_eq!(
        texts(&links),
        vec!["https://x.test/dir/b.html", "https://x.test/e.html", "https://x.test/dir/b.html"]
    );
    assert_eq!(follow_targets(&page, &vec![]), vec![]);
}

#[test]
fn links_of_document_stay_on_the_host() {
    let page = url("https://x.test/a.html");
    let links = links_of_document(&page, &Document::from(PAGE));
    assert_eq!(
        texts(&links),
        vec!["https://x.test/styles.css", "https://x.test/b.html", "https://x.test/d.html#part"]
    );
    for link in &links {
        assert_eq!(link.host_str(), Some("x.test"));
    }
}

#[test]
fn links_of_a_large_page_are_all_read() {
    let page = url("https://x.test/");
    let mut html = String::new();
    for i in 0..2000 {
        html.push_str(&format!("<p><a href=\"/page/{i}\">page {i}</a></p>\n"));
    }
    let links = links_of_document(&page, &Document::from(html.as_str()));
    assert_eq!(links.len(), 2000);
    assert_eq!(links[0].as_str(), "https://x.test/page/0");
    assert_eq!(links[1999].as_str(), "https://x.test/page/1999");
}
