//! The crawl of one host: the URLs still to visit, the URLs visited, and the
//! steps that take the crawl from one fetched page to the next.
//!
//! The crawl does not fetch. Its caller takes the next URL from
//! [`CrawlStreamState::pop_document`], fetches it, and hands the outcome to
//! [`CrawlStreamState::document_fetched`], until no URL is left.

use vstd::prelude::*;
use vstd::string::*;
use crate::address::{Url, UrlView};
use select::document::Document;
use crate::links::{document_links, lemma_links_stay_on_host, links_of_document, page_hrefs};
use crate::ordered::{
    ascending, inserted, lemma_inserted_contains, lemma_inserted_into_empty, OrderedUrls,
};
use crate::text_order::{lemma_text_before_strict_total, text_before};
use crate::visited::VisitedUrls;

verus! {

/// Why a page could not be fetched.
#[derive(Debug)]
pub struct FetchError {
    /// What the client reported.
    pub message: String,
}

/// The outcome of the crawl for one URL.
#[derive(Debug)]
pub struct CrawlResult {
    /// The URL that was crawled.
    pub url: Url,
    /// The page, or why there is none.
    pub html: Result<Document, FetchError>,
}

/// The mathematical value of a [`CrawlStreamState`].
pub struct CrawlState {
    /// The texts of the URLs that were handed out for fetching.
    pub visited: Set<Seq<char>>,
    /// The URLs found and not yet taken, in ascending order; one URL may
    /// stand here several times.
    pub to_visit: Seq<UrlView>,
}

/// The crawl before its first step: nothing visited, the seed to visit.
pub open spec fn initial_state(seed: UrlView) -> CrawlState {
    CrawlState { visited: Set::empty(), to_visit: seq![seed] }
}

/// The crawl after `url` was offered: queued in its place, unless visited.
pub open spec fn enqueued(state: CrawlState, url: UrlView) -> CrawlState {
    if state.visited.contains(url.text) {
        state
    } else {
        CrawlState { visited: state.visited, to_visit: inserted(state.to_visit, url) }
    }
}

/// The crawl after the URLs of `urls` were offered one after another.
pub open spec fn enqueued_all(state: CrawlState, urls: Seq<UrlView>) -> CrawlState
    decreases urls.len(),
{
    if urls.len() == 0 {
        state
    } else {
        enqueued(enqueued_all(state, urls.drop_last()), urls.last())
    }
}

/// The next URL to fetch and the crawl after it was taken. The greatest
/// queued URL is taken, again and again while the one taken was visited
/// before; the first that was not is marked visited and handed out. With
/// nothing left to take there is no next URL.
pub open spec fn next_document(state: CrawlState) -> (Option<UrlView>, CrawlState)
    decreases state.to_visit.len(),
{
    if state.to_visit.len() == 0 {
        (None, state)
    } else {
        let url = state.to_visit.last();
        let rest = state.to_visit.drop_last();
        if state.visited.contains(url.text) {
            next_document(CrawlState { visited: state.visited, to_visit: rest })
        } else {
            (Some(url), CrawlState { visited: state.visited.insert(url.text), to_visit: rest })
        }
    }
}

/// The crawl after the fetch of `url` ended: the links of a fetched page
/// that stay on its host are offered, a failed fetch changes nothing.
pub open spec fn after_fetch(state: CrawlState, url: UrlView, page: Option<Document>)
    -> CrawlState {
    match page {
        Some(html) => enqueued_all(state, document_links(url, html)),
        None => state,
    }
}

/// The fetched page, if the fetch succeeded.
pub open spec fn fetched_page(html: Result<Document, FetchError>) -> Option<Document> {
    match html {
        Ok(page) => Some(page),
        Err(_) => None,
    }
}

/// What taking the next URL does: the URL taken waited and was not visited,
/// and is visited afterwards; what still waits, waited before; what waited
/// still waits or is visited; and with no URL to take nothing waits any
/// more.
pub proof fn lemma_next_document(state: CrawlState)
    ensures
        ({
            let (next, taken) = next_document(state);
            &&& forall|i: int|
                0 <= i < taken.to_visit.len() ==> state.to_visit.contains(
                    #[trigger] taken.to_visit[i],
                )
            &&& forall|i: int|
                0 <= i < state.to_visit.len() ==> taken.to_visit.contains(
                    #[trigger] state.to_visit[i],
                ) || taken.visited.contains(state.to_visit[i].text)
            &&& taken.to_visit.len() <= state.to_visit.len()
            &&& match next {
                Some(url) => {
                    &&& state.to_visit.contains(url)
                    &&& !state.visited.contains(url.text)
                    &&& taken.visited == state.visited.insert(url.text)
                    &&& taken.to_visit.len() < state.to_visit.len()
                },
                None => taken.visited == state.visited && taken.to_visit.len() == 0,
            }
        }),
    decreases state.to_visit.len(),
{
    if state.to_visit.len() > 0 {
        let url = state.to_visit.last();
        let rest = state.to_visit.drop_last();
        let last: int = state.to_visit.len() - 1;
        assert(state.to_visit[last] == url);
        assert forall|i: int| 0 <= i < rest.len() implies state.to_visit.contains(
            #[trigger] rest[i],
        ) by {
            assert(state.to_visit[i] == rest[i]);
        }
        if state.visited.contains(url.text) {
            let shorter = CrawlState { visited: state.visited, to_visit: rest };
            lemma_next_document(shorter);
            let (next, taken) = next_document(shorter);
            assert forall|i: int| 0 <= i < taken.to_visit.len() implies state.to_visit.contains(
                #[trigger] taken.to_visit[i],
            ) by {
                let j: int = choose|j: int| 0 <= j < rest.len() && rest[j] == taken.to_visit[i];
                assert(state.to_visit[j] == rest[j]);
            }
            assert forall|i: int| 0 <= i < state.to_visit.len() implies taken.to_visit.contains(
                #[trigger] state.to_visit[i],
            ) || taken.visited.contains(state.to_visit[i].text) by {
                if i < last {
                    assert(state.to_visit[i] == rest[i]);
                }
            }
            if next is Some {
                let j: int = choose|j: int| 0 <= j < rest.len() && rest[j] == next->0;
                assert(state.to_visit[j] == rest[j]);
            }
        } else {
            assert forall|i: int| 0 <= i < state.to_visit.len() implies rest.contains(
                #[trigger] state.to_visit[i],
            ) || state.visited.insert(url.text).contains(state.to_visit[i].text) by {
                if i < last {
                    assert(rest[i] == state.to_visit[i]);
                }
            }
        }
    }
}

/// What offering URLs does: nothing becomes visited; what waits afterwards
/// waited before or was offered; what waited still waits; and each URL that
/// was offered waits, unless it was visited.
pub proof fn lemma_enqueued_all(state: CrawlState, urls: Seq<UrlView>)
    ensures
        enqueued_all(state, urls).visited == state.visited,
        forall|i: int|
            0 <= i < enqueued_all(state, urls).to_visit.len() ==> state.to_visit.contains(
                #[trigger] enqueued_all(state, urls).to_visit[i],
            ) || urls.contains(enqueued_all(state, urls).to_visit[i]),
        forall|i: int|
            0 <= i < state.to_visit.len() ==> enqueued_all(state, urls).to_visit.contains(
                #[trigger] state.to_visit[i],
            ),
        forall|k: int|
            0 <= k < urls.len() ==> state.visited.contains((#[trigger] urls[k]).text)
                || enqueued_all(state, urls).to_visit.contains(urls[k]),
    decreases urls.len(),
{
    if urls.len() > 0 {
        let before = enqueued_all(state, urls.drop_last());
        lemma_enqueued_all(state, urls.drop_last());
        lemma_inserted_contains(before.to_visit, urls.last());
        let after = enqueued_all(state, urls);
        let last: int = urls.len() - 1;
        assert(urls[last] == urls.last());
        assert forall|i: int| 0 <= i < after.to_visit.len() implies state.to_visit.contains(
            #[trigger] after.to_visit[i],
        ) || urls.contains(after.to_visit[i]) by {
            let url = after.to_visit[i];
            if before.to_visit.contains(url) {
                let j: int = choose|j: int| 0 <= j < before.to_visit.len() && before.to_visit[j]
                    == url;
                if urls.drop_last().contains(before.to_visit[j]) {
                    let k: int = choose|k: int|
                        0 <= k < urls.drop_last().len() && urls.drop_last()[k] == url;
                    assert(urls[k] == url);
                }
            }
        }
        assert forall|k: int| 0 <= k < urls.len() implies state.visited.contains(
            (#[trigger] urls[k]).text,
        ) || after.to_visit.contains(urls[k]) by {
            if k < last {
                assert(urls.drop_last()[k] == urls[k]);
                if before.to_visit.contains(urls[k]) {
                    assert(after.to_visit.contains(urls[k]));
                }
            } else if !state.visited.contains(urls[k].text) {
                assert(after.to_visit == inserted(before.to_visit, urls.last()));
                assert(inserted(before.to_visit, urls.last()).contains(urls.last()));
            }
        }
        assert forall|i: int| 0 <= i < state.to_visit.len() implies after.to_visit.contains(
            #[trigger] state.to_visit[i],
        ) by {
            assert(before.to_visit.contains(state.to_visit[i]));
        }
    }
}

/// The URL taken next is the greatest of those that wait unvisited.
pub proof fn lemma_next_document_greatest(state: CrawlState)
    requires
        ascending(state.to_visit),
    ensures
        next_document(state).0 is Some ==> forall|i: int|
            0 <= i < state.to_visit.len() && !state.visited.contains(
                (#[trigger] state.to_visit[i]).text,
            ) ==> !text_before(next_document(state).0->0.text, state.to_visit[i].text),
    decreases state.to_visit.len(),
{
    if state.to_visit.len() > 0 {
        let url = state.to_visit.last();
        let rest = state.to_visit.drop_last();
        lemma_text_before_strict_total(url.text, url.text);
        if state.visited.contains(url.text) {
            let shorter = CrawlState { visited: state.visited, to_visit: rest };
            lemma_next_document_greatest(shorter);
            if next_document(state).0 is Some {
                assert forall|i: int|
                    0 <= i < state.to_visit.len() && !state.visited.contains(
                        (#[trigger] state.to_visit[i]).text,
                    ) implies !text_before(
                    next_document(state).0->0.text,
                    state.to_visit[i].text,
                ) by {
                    assert(state.to_visit[i] == rest[i]);
                }
            }
        }
    }
}

/// The state of a crawl.
pub struct CrawlStreamState {
    /// The URLs handed out for fetching.
    visited: VisitedUrls,
    /// The URLs found and not yet taken; may hold a URL several times.
    to_visit: OrderedUrls,
}

impl View for CrawlStreamState {
    type V = CrawlState;

    closed spec fn view(&self) -> CrawlState {
        CrawlState { visited: self.visited@, to_visit: self.to_visit@ }
    }
}

impl CrawlStreamState {
    /// A crawl that starts at `url`.
    pub fn create(url: Url) -> (state: Self)
        ensures
            state@ == initial_state(url@),
    {
        let mut to_visit = OrderedUrls::new();
        proof {
            lemma_inserted_into_empty(url@);
        }
        to_visit.insert(url);
        CrawlStreamState { visited: VisitedUrls::new(), to_visit }
    }

    /// The number of URLs visited.
    pub fn visited_count(&self) -> (n: usize)
        ensures
            self@.visited.finite(),
            n == self@.visited.len(),
    {
        self.visited.len()
    }

    /// The number of URLs waiting to be taken, a URL that waits several
    /// times counted each time.
    pub fn to_visit_count(&self) -> (n: usize)
        ensures
            n == self@.to_visit.len(),
            ascending(self@.to_visit),
    {
        self.to_visit.len()
    }

    /// Whether `url` was handed out for fetching.
    pub fn is_visited(&self, url: &Url) -> (visited: bool)
        ensures
            visited == self@.visited.contains(url@.text),
    {
        self.visited.contains(url)
    }

    /// Marks `url` as visited without fetching it: the crawl will not hand it
    /// out. Returns whether it was not visited before.
    pub fn mark_visited(&mut self, url: Url) -> (new: bool)
        ensures
            final(self)@.visited == old(self)@.visited.insert(url@.text),
            final(self)@.to_visit == old(self)@.to_visit,
            new == !old(self)@.visited.contains(url@.text),
    {
        self.visited.insert(url)
    }

    /// The URL that the crawl would take next if none of those waiting was
    /// visited: the greatest of them.
    pub fn peek(&self) -> (greatest: Option<&Url>)
        ensures
            ascending(self@.to_visit),
            self@.to_visit.len() == 0 ==> greatest is None,
            self@.to_visit.len() > 0 ==> greatest is Some && greatest->0@ == self@.to_visit.last(),
    {
        self.to_visit.last()
    }

    /// Offers `url` to the crawl. A URL that was visited is turned down with
    /// `None`; any other is queued, also where it waits there already.
    pub fn add_url_to_queue(&mut self, url: Url) -> (queued: Option<()>)
        ensures
            final(self)@ == enqueued(old(self)@, url@),
            queued is None <==> old(self)@.visited.contains(url@.text),
    {
        if self.visited.contains(&url) {
            return None;
        }
        self.to_visit.insert(url);
        Some(())
    }

    /// Offers to the crawl the links of the page `html`, fetched at
    /// `document_url`, that stay on the host of `document_url`.
    pub fn push_document_links(&mut self, document_url: &Url, html: &Document)
        ensures
            final(self)@ == enqueued_all(old(self)@, document_links(document_url@, *html)),
            final(self)@.visited == old(self)@.visited,
            forall|i: int|
                0 <= i < final(self)@.to_visit.len() ==> old(self)@.to_visit.contains(
                    #[trigger] final(self)@.to_visit[i],
                ) || final(self)@.to_visit[i].host == document_url@.host,
            forall|i: int|
                0 <= i < old(self)@.to_visit.len() ==> final(self)@.to_visit.contains(
                    #[trigger] old(self)@.to_visit[i],
                ),
            forall|k: int|
                0 <= k < document_links(document_url@, *html).len() ==> old(
                    self,
                )@.visited.contains((#[trigger] document_links(document_url@, *html)[k]).text)
                    || final(self)@.to_visit.contains(document_links(document_url@, *html)[k]),
    {
        proof {
            let found = document_links(document_url@, *html);
            lemma_enqueued_all(self@, found);
            lemma_links_stay_on_host(document_url@, page_hrefs(*html));
            let after = enqueued_all(self@, found);
            assert forall|i: int| 0 <= i < after.to_visit.len() implies self@.to_visit.contains(
                #[trigger] after.to_visit[i],
            ) || after.to_visit[i].host == document_url@.host by {
                if !self@.to_visit.contains(after.to_visit[i]) {
                    let k: int = choose|k: int| 0 <= k < found.len() && found[k] == after.to_visit[i];
                    assert(found[k].host == document_url@.host);
                }
            }
        }
        let links = links_of_document(document_url, html);
        let mut i: usize = 0;
        assert(links.deep_view().take(0) =~= Seq::empty());
        while i < links.len()
            invariant
                i <= links.len(),
                self@ == enqueued_all(old(self)@, links.deep_view().take(i as int)),
            decreases links.len() - i,
        {
            let ghost offered = links.deep_view().take(i as int + 1);
            assert(offered.drop_last() =~= links.deep_view().take(i as int));
            assert(offered.last() == links[i as int]@);
            let _ = self.add_url_to_queue(links[i].clone());
            i += 1;
        }
        assert(links.deep_view().take(i as int) =~= links.deep_view());
    }

    /// Takes the next URL to fetch, and marks it visited. `None` ends the
    /// crawl: every URL found was visited.
    pub fn pop_document(&mut self) -> (next: Option<Url>)
        ensures
            (next.deep_view(), final(self)@) == next_document(old(self)@),
            next is None ==> final(self)@.to_visit.len() == 0 && final(self)@.visited == old(
                self,
            )@.visited,
            next is Some ==> old(self)@.to_visit.contains(next->0@) && !old(
                self,
            )@.visited.contains(next->0@.text) && final(self)@.visited == old(
                self,
            )@.visited.insert(next->0@.text),
            next is Some ==> forall|i: int|
                0 <= i < old(self)@.to_visit.len() && !old(self)@.visited.contains(
                    (#[trigger] old(self)@.to_visit[i]).text,
                ) ==> !text_before(next->0@.text, old(self)@.to_visit[i].text),
    {
        loop
            invariant
                next_document(self@) == next_document(old(self)@),
                ascending(self@.to_visit) ==> ascending(old(self)@.to_visit),
            decreases self@.to_visit.len(),
        {
            let ghost before = self@;
            match self.to_visit.pop_last() {
                None => {
                    proof {
                        lemma_next_document(old(self)@);
                    }
                    return None;
                },
                Some(url) => {
                    let is_unvisited = self.visited.insert(url.clone());
                    if is_unvisited {
                        proof {
                            lemma_next_document(old(self)@);
                            lemma_next_document_greatest(old(self)@);
                        }
                        return Some(url);
                    }
                    assert(self@.visited =~= before.visited);
                },
            }
        }
    }

    /// Records that the fetch of `url`, taken from [`Self::pop_document`],
    /// ended with `html`: the links of a fetched page are offered to the
    /// crawl. Returns the result of the crawl for `url`.
    pub fn document_fetched(&mut self, url: Url, html: Result<Document, FetchError>) -> (result:
        CrawlResult)
        ensures
            final(self)@ == after_fetch(old(self)@, url@, fetched_page(html)),
            final(self)@.visited == old(self)@.visited,
            forall|i: int|
                0 <= i < final(self)@.to_visit.len() ==> old(self)@.to_visit.contains(
                    #[trigger] final(self)@.to_visit[i],
                ) || final(self)@.to_visit[i].host == url@.host,
            result.url@ == url@,
            result.html == html,
    {
        match &html {
            Ok(page) => {
                self.push_document_links(&url, page);
            },
            Err(_) => {},
        }
        CrawlResult { url, html }
    }
}

} // verus!
