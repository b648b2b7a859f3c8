//! The links of a fetched page: the `href` targets of its anchor and link
//! elements, resolved against the page's own URL and kept where they stay on
//! the page's host.

use vstd::prelude::*;
use vstd::string::*;
use select::document::Document;
use crate::address::{joined_url, outcome_view, parsed_url, ParseError, Url, UrlView};

verus! {

/// A parsed HTML document of the `select` crate.
#[verifier::external_type_specification]
#[verifier::external_body]
pub struct ExDocument(select::document::Document);

/// What the `select` crate finds in `document`: for each element named
/// `first_name` or `second_name`, in document order, the value of its
/// attribute `attribute`, if it has one.
pub uninterp spec fn element_attributes(
    document: select::document::Document,
    first_name: Seq<char>,
    second_name: Seq<char>,
    attribute: Seq<char>,
) -> Seq<Option<Seq<char>>>;

/// Walks the elements that `select::document::Document::find` gives for the
/// two names, and reads the attribute of each with `Node::attr`. The walk
/// goes through the nodes of the document in their order and changes
/// nothing, so the result is a function of the document and the three texts.
#[verifier::external_body]
fn find_attributes(
    document: &select::document::Document,
    first_name: &str,
    second_name: &str,
    attribute: &str,
) -> (values: Vec<Option<String>>)
    ensures
        values.deep_view() == element_attributes(
            *document,
            first_name@,
            second_name@,
            attribute@,
        ),
{
    let names = select::predicate::Predicate::or(
        select::predicate::Name(first_name),
        select::predicate::Name(second_name),
    );
    document.find(names).map(|node| node.attr(attribute).map(str::to_owned)).collect()
}

/// The `href` attributes of the `a` and `link` elements of a page, in
/// document order; `None` for an element without one.
pub open spec fn page_hrefs(html: Document) -> Seq<Option<Seq<char>>> {
    element_attributes(html, "a"@, "link"@, "href"@)
}

/// The URL that a link target stands for on a page at `document_url`: the
/// target itself where it is an absolute URL, else, where it is a relative
/// reference, its resolution against the page's URL.
pub open spec fn resolved_link(document_url: UrlView, raw: Seq<char>) -> Result<
    UrlView,
    ParseError,
> {
    if parsed_url(raw) == Err::<UrlView, ParseError>(ParseError::RelativeUrlWithoutBase) {
        joined_url(document_url.text, raw)
    } else {
        parsed_url(raw)
    }
}

/// The link that is followed: one that resolved to a URL with the host of
/// the page.
pub open spec fn link_in_domain(document_url: UrlView, outcome: Result<UrlView, ParseError>)
    -> Option<UrlView> {
    match outcome {
        Ok(url) => if url.host == document_url.host {
            Some(url)
        } else {
            None
        },
        Err(_) => None,
    }
}

/// The URLs to follow from a page at `document_url` whose elements carry the
/// targets `hrefs`: in the order of the elements, without the elements that
/// have no target, the targets that do not resolve and those that lead to
/// another host.
pub open spec fn links_in_domain(document_url: UrlView, hrefs: Seq<Option<Seq<char>>>) -> Seq<
    UrlView,
>
    decreases hrefs.len(),
{
    if hrefs.len() == 0 {
        Seq::empty()
    } else {
        let before = links_in_domain(document_url, hrefs.drop_last());
        match hrefs.last() {
            Some(raw) => match link_in_domain(document_url, resolved_link(document_url, raw)) {
                Some(url) => before.push(url),
                None => before,
            },
            None => before,
        }
    }
}

/// The URLs to follow from the page `html` fetched at `document_url`.
pub open spec fn document_links(document_url: UrlView, html: Document) -> Seq<UrlView> {
    links_in_domain(document_url, page_hrefs(html))
}

/// The URLs to follow from a page depend on the text and the host of its
/// URL alone.
pub proof fn lemma_links_of_same_page(
    document_url: UrlView,
    other_url: UrlView,
    hrefs: Seq<Option<Seq<char>>>,
)
    requires
        document_url.text == other_url.text,
        document_url.host == other_url.host,
    ensures
        links_in_domain(document_url, hrefs) == links_in_domain(other_url, hrefs),
    decreases hrefs.len(),
{
    if hrefs.len() > 0 {
        lemma_links_of_same_page(document_url, other_url, hrefs.drop_last());
    }
}

/// Every URL to follow has the host of the page.
pub proof fn lemma_links_stay_on_host(document_url: UrlView, hrefs: Seq<Option<Seq<char>>>)
    ensures
        forall|i: int|
            0 <= i < links_in_domain(document_url, hrefs).len() ==> (#[trigger] links_in_domain(
                document_url,
                hrefs,
            )[i]).host == document_url.host,
    decreases hrefs.len(),
{
    if hrefs.len() > 0 {
        lemma_links_stay_on_host(document_url, hrefs.drop_last());
    }
}

/// The `href` attributes of the `a` and `link` elements of `html`.
pub fn link_targets(html: &Document) -> (targets: Vec<Option<String>>)
    ensures
        targets.deep_view() == page_hrefs(*html),
{
    find_attributes(html, "a", "link", "href")
}

/// Whether a parse failed because the text is a relative reference.
pub fn is_relative(outcome: &Result<Url, ParseError>) -> (relative: bool)
    ensures
        relative == (outcome_view(*outcome) == Err::<UrlView, ParseError>(
            ParseError::RelativeUrlWithoutBase,
        )),
{
    match outcome {
        Err(ParseError::RelativeUrlWithoutBase) => true,
        _ => false,
    }
}

/// Reads a link target found on the page at `document_url`.
pub fn resolve_link(document_url: &Url, raw: &str) -> (outcome: Result<Url, ParseError>)
    ensures
        outcome_view(outcome) == resolved_link(document_url@, raw@),
{
    let alone = Url::parse(raw);
    if is_relative(&alone) {
        document_url.join(raw)
    } else {
        alone
    }
}

/// Keeps a resolved link where it leads to the host of the page.
pub fn keep_in_domain(document_url: &Url, outcome: Result<Url, ParseError>) -> (kept: Option<Url>)
    ensures
        kept.deep_view() == link_in_domain(document_url@, outcome_view(outcome)),
{
    match outcome {
        Ok(url) => if document_url.same_host(&url) {
            Some(url)
        } else {
            None
        },
        Err(_) => None,
    }
}

/// Resolves the link targets of a page and keeps those on the page's host.
pub fn follow_targets(document_url: &Url, targets: &Vec<Option<String>>) -> (links: Vec<Url>)
    ensures
        links.deep_view() == links_in_domain(document_url@, targets.deep_view()),
        forall|i: int| 0 <= i < links.len() ==> (#[trigger] links[i])@.host == document_url@.host,
{
    let mut links: Vec<Url> = Vec::new();
    let mut i: usize = 0;
    assert(targets.deep_view().take(0) =~= Seq::empty());
    while i < targets.len()
        invariant
            i <= targets.len(),
            links.deep_view() == links_in_domain(document_url@, targets.deep_view().take(i as int)),
        decreases targets.len() - i,
    {
        let ghost done = links.deep_view();
        let ghost hrefs = targets.deep_view().take(i as int + 1);
        assert(hrefs.drop_last() =~= targets.deep_view().take(i as int));
        assert(hrefs.last() == targets[i as int].deep_view());
        match &targets[i] {
            Some(raw) => {
                let outcome = resolve_link(document_url, raw.as_str());
                match keep_in_domain(document_url, outcome) {
                    Some(url) => {
                        links.push(url);
                        assert(links.deep_view() =~= done.push(url@));
                    },
                    None => {},
                }
            },
            None => {},
        }
        i += 1;
    }
    assert(targets.deep_view().take(i as int) =~= targets.deep_view());
    proof {
        lemma_links_stay_on_host(document_url@, targets.deep_view());
        assert forall|i: int| 0 <= i < links.len() implies (#[trigger] links[i])@.host
            == document_url@.host by {
            assert(links[i]@ == links.deep_view()[i]);
        }
    }
    links
}

/// The URLs that the crawl of a page's host follows from the page `html`,
/// fetched at `document_url`.
pub fn links_of_document(document_url: &Url, html: &Document) -> (links: Vec<Url>)
    ensures
        links.deep_view() == document_links(document_url@, *html),
        forall|i: int| 0 <= i < links.len() ==> (#[trigger] links[i])@.host == document_url@.host,
{
    let targets = link_targets(html);
    follow_targets(document_url, &targets)
}

} // verus!
