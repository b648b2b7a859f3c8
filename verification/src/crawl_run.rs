//! Whole crawls: what holds of the sequence of URLs that a crawl hands out
//! when its steps are taken one after another over a given site.

use vstd::prelude::*;
use select::document::Document;
use crate::address::UrlView;
use crate::crawl_stream::{
    after_fetch, enqueued_all, initial_state, lemma_enqueued_all, lemma_next_document,
    next_document, CrawlState,
};
use crate::links::{
    document_links, lemma_links_of_same_page, lemma_links_stay_on_host, page_hrefs,
};
use crate::ordered::{holds_text, texts_of};
use crate::visited::lemma_distinct_texts_count;

verus! {

/// A site: every page that can be fetched, under the text of its URL. The
/// fetch of any other URL fails.
pub type Site = Map<Seq<char>, Document>;

/// What the fetch of `url` gives on `site`.
pub open spec fn fetched(site: Site, url: UrlView) -> Option<Document> {
    if site.dom().contains(url.text) {
        Some(site[url.text])
    } else {
        None
    }
}

/// One step of the crawl of `site`: the next URL is taken and fetched, and
/// the links of its page are offered. Gives the URL and the crawl after the
/// step; without a next URL the crawl has ended.
pub open spec fn crawl_step(state: CrawlState, site: Site) -> (Option<UrlView>, CrawlState) {
    let (next, taken) = next_document(state);
    match next {
        Some(url) => (next, after_fetch(taken, url, fetched(site, url))),
        None => (None, taken),
    }
}

/// The URLs that the first `n` steps of the crawl of `site` hand out, from
/// `state` on, in their order; fewer than `n` where the crawl ends earlier.
pub open spec fn crawled(state: CrawlState, site: Site, n: nat) -> Seq<UrlView>
    decreases n,
{
    if n == 0 {
        Seq::empty()
    } else {
        match crawl_step(state, site) {
            (Some(url), later) => seq![url] + crawled(later, site, (n - 1) as nat),
            (None, _) => Seq::empty(),
        }
    }
}

/// The crawl of `site` hands out exactly `n` URLs from `state` on, and then
/// ends.
pub open spec fn ends_after(state: CrawlState, site: Site, n: nat) -> bool
    decreases n,
{
    match crawl_step(state, site) {
        (Some(_), later) => n > 0 && ends_after(later, site, (n - 1) as nat),
        (None, _) => n == 0,
    }
}

/// Every URL that waits in `state` belongs to `urls`.
pub open spec fn waits_within(state: CrawlState, urls: Set<UrlView>) -> bool {
    forall|i: int| 0 <= i < state.to_visit.len() ==> urls.contains(#[trigger] state.to_visit[i])
}

/// Every URL that waits in `state` has the host `host`.
pub open spec fn waits_on_host(state: CrawlState, host: Option<Seq<char>>) -> bool {
    forall|i: int| 0 <= i < state.to_visit.len() ==> (#[trigger] state.to_visit[i]).host == host
}

/// The links of every page of `site` that is fetched at a URL of `urls` lead
/// to URLs of `urls`.
pub open spec fn closed_under_links(site: Site, urls: Set<UrlView>) -> bool {
    forall|url: UrlView, i: int|
        urls.contains(url) && site.dom().contains(url.text) && 0 <= i < document_links(
            url,
            site[url.text],
        ).len() ==> urls.contains(#[trigger] document_links(url, site[url.text])[i])
}

/// The URLs of `urls` whose text is not in `visited`.
pub open spec fn unvisited(urls: Set<UrlView>, visited: Set<Seq<char>>) -> Set<UrlView> {
    urls.filter(|url: UrlView| !visited.contains(url.text))
}

/// A step keeps the waiting URLs within a set that is closed under the links
/// of the site.
pub proof fn lemma_step_waits_within(state: CrawlState, site: Site, urls: Set<UrlView>)
    requires
        waits_within(state, urls),
        closed_under_links(site, urls),
    ensures
        waits_within(crawl_step(state, site).1, urls),
        crawl_step(state, site).0 is Some ==> urls.contains(crawl_step(state, site).0->0),
{
    lemma_next_document(state);
    let (next, taken) = next_document(state);
    assert(waits_within(taken, urls)) by {
        assert forall|i: int| 0 <= i < taken.to_visit.len() implies urls.contains(
            #[trigger] taken.to_visit[i],
        ) by {
            let j: int = choose|j: int|
                0 <= j < state.to_visit.len() && state.to_visit[j] == taken.to_visit[i];
            assert(urls.contains(state.to_visit[j]));
        }
    }
    if next is Some {
        let url = next->0;
        let j: int = choose|j: int| 0 <= j < state.to_visit.len() && state.to_visit[j] == url;
        assert(urls.contains(state.to_visit[j]));
        if site.dom().contains(url.text) {
            let links = document_links(url, site[url.text]);
            lemma_enqueued_all(taken, links);
            let later = enqueued_all(taken, links);
            assert forall|i: int| 0 <= i < later.to_visit.len() implies urls.contains(
                #[trigger] later.to_visit[i],
            ) by {
                let found = later.to_visit[i];
                if taken.to_visit.contains(found) {
                    let k: int = choose|k: int|
                        0 <= k < taken.to_visit.len() && taken.to_visit[k] == found;
                    assert(urls.contains(taken.to_visit[k]));
                } else {
                    let k: int = choose|k: int| 0 <= k < links.len() && links[k] == found;
                    assert(urls.contains(document_links(url, site[url.text])[k]));
                }
            }
        }
    }
}

/// The URLs that a crawl hands out were not visited when it began, and no
/// two of them have the same text: no URL is crawled twice.
pub proof fn lemma_crawled_once(state: CrawlState, site: Site, n: nat)
    ensures
        forall|i: int|
            0 <= i < crawled(state, site, n).len() ==> !state.visited.contains(
                (#[trigger] crawled(state, site, n)[i]).text,
            ),
        forall|i: int, j: int|
            0 <= i < j < crawled(state, site, n).len() ==> crawled(state, site, n)[i].text
                != crawled(state, site, n)[j].text,
    decreases n,
{
    if n > 0 {
        lemma_next_document(state);
        let (next, taken) = next_document(state);
        if next is Some {
            let url = next->0;
            let later = crawl_step(state, site).1;
            if site.dom().contains(url.text) {
                lemma_enqueued_all(taken, document_links(url, site[url.text]));
            }
            assert(later.visited == state.visited.insert(url.text));
            lemma_crawled_once(later, site, (n - 1) as nat);
            let tail = crawled(later, site, (n - 1) as nat);
            let all = crawled(state, site, n);
            assert(all == seq![url] + tail);
            assert forall|i: int| 0 <= i < all.len() implies !state.visited.contains(
                (#[trigger] all[i]).text,
            ) by {
                if i > 0 {
                    assert(all[i] == tail[i - 1]);
                    assert(!later.visited.contains(tail[i - 1].text));
                }
            }
            assert forall|i: int, j: int| 0 <= i < j < all.len() implies all[i].text
                != all[j].text by {
                assert(all[j] == tail[j - 1]);
                assert(!later.visited.contains(tail[j - 1].text));
                if i > 0 {
                    assert(all[i] == tail[i - 1]);
                }
            }
        }
    }
}

/// A crawl that starts with URLs of one host waiting never leaves that
/// host: every URL that it hands out has that host.
pub proof fn lemma_crawled_on_host(
    state: CrawlState,
    site: Site,
    host: Option<Seq<char>>,
    n: nat,
)
    requires
        waits_on_host(state, host),
    ensures
        forall|i: int|
            0 <= i < crawled(state, site, n).len() ==> (#[trigger] crawled(state, site, n)[i]).host
                == host,
    decreases n,
{
    if n > 0 {
        lemma_step_on_host(state, site, host);
        let (next, later) = crawl_step(state, site);
        if next is Some {
            lemma_crawled_on_host(later, site, host, (n - 1) as nat);
            let tail = crawled(later, site, (n - 1) as nat);
            let all = crawled(state, site, n);
            assert(all == seq![next->0] + tail);
            assert forall|i: int| 0 <= i < all.len() implies (#[trigger] all[i]).host == host by {
                if i > 0 {
                    assert(all[i] == tail[i - 1]);
                }
            }
        }
    }
}

/// The crawl from a seed stays on the host of the seed: every URL that it
/// hands out has that host.
pub proof fn lemma_crawl_stays_on_seed_host(seed: UrlView, site: Site, n: nat)
    ensures
        forall|i: int|
            0 <= i < crawled(initial_state(seed), site, n).len() ==> (#[trigger] crawled(
                initial_state(seed),
                site,
                n,
            )[i]).host == seed.host,
{
    lemma_crawled_on_host(initial_state(seed), site, seed.host, n);
}

/// A step of a crawl on one host hands out a URL of that host, and leaves
/// only URLs of that host waiting.
pub proof fn lemma_step_on_host(state: CrawlState, site: Site, host: Option<Seq<char>>)
    requires
        waits_on_host(state, host),
    ensures
        waits_on_host(crawl_step(state, site).1, host),
        crawl_step(state, site).0 is Some ==> crawl_step(state, site).0->0.host == host,
{
    lemma_next_document(state);
    let (next, taken) = next_document(state);
    assert(waits_on_host(taken, host)) by {
        assert forall|i: int| 0 <= i < taken.to_visit.len() implies (
        #[trigger] taken.to_visit[i]).host == host by {
            let j: int = choose|j: int|
                0 <= j < state.to_visit.len() && state.to_visit[j] == taken.to_visit[i];
            assert(state.to_visit[j].host == host);
        }
    }
    if next is Some {
        let url = next->0;
        let j: int = choose|j: int| 0 <= j < state.to_visit.len() && state.to_visit[j] == url;
        assert(state.to_visit[j].host == host);
        if site.dom().contains(url.text) {
            let links = document_links(url, site[url.text]);
            lemma_enqueued_all(taken, links);
            lemma_links_stay_on_host(url, page_hrefs(site[url.text]));
            let later = enqueued_all(taken, links);
            assert forall|i: int| 0 <= i < later.to_visit.len() implies (
            #[trigger] later.to_visit[i]).host == host by {
                let found = later.to_visit[i];
                if taken.to_visit.contains(found) {
                    let k: int = choose|k: int|
                        0 <= k < taken.to_visit.len() && taken.to_visit[k] == found;
                    assert(taken.to_visit[k].host == host);
                } else {
                    let k: int = choose|k: int| 0 <= k < links.len() && links[k] == found;
                    assert(links[k].host == url.host);
                }
            }
        }
    }
}

/// A crawl that ends after `n` URLs hands out `n` URLs, however many steps
/// are taken.
pub proof fn lemma_crawled_until_the_end(state: CrawlState, site: Site, n: nat, steps: nat)
    requires
        ends_after(state, site, n),
        n <= steps,
    ensures
        crawled(state, site, steps).len() == n,
        crawled(state, site, steps) == crawled(state, site, n),
    decreases n,
{
    if n > 0 {
        let later = crawl_step(state, site).1;
        lemma_crawled_until_the_end(later, site, (n - 1) as nat, (steps - 1) as nat);
    }
}

/// A crawl whose waiting URLs lie in a finite set of URLs that is closed
/// under the links of the site comes to an end, after it has handed out at
/// most as many URLs as the set holds unvisited ones.
pub proof fn lemma_crawl_ends(state: CrawlState, site: Site, urls: Set<UrlView>)
    requires
        urls.finite(),
        waits_within(state, urls),
        closed_under_links(site, urls),
    ensures
        exists|n: nat|
            n <= unvisited(urls, state.visited).len() && #[trigger] ends_after(state, site, n),
    decreases unvisited(urls, state.visited).len(),
{
    let (next, later) = crawl_step(state, site);
    if next is Some {
        let url = next->0;
        lemma_next_document(state);
        let taken = next_document(state).1;
        if site.dom().contains(url.text) {
            lemma_enqueued_all(taken, document_links(url, site[url.text]));
        }
        assert(later.visited == state.visited.insert(url.text));
        lemma_step_waits_within(state, site, urls);
        let before = unvisited(urls, state.visited);
        let after = unvisited(urls, later.visited);
        urls.lemma_len_filter(|other: UrlView| !state.visited.contains(other.text));
        assert(before.finite());
        assert(before.contains(url));
        assert(after.subset_of(before.remove(url)));
        vstd::set_lib::lemma_len_subset(after, before.remove(url));
        lemma_crawl_ends(later, site, urls);
        let m: nat = choose|m: nat| m <= after.len() && #[trigger] ends_after(later, site, m);
        assert(ends_after(state, site, m + 1));
    } else {
        assert(ends_after(state, site, 0));
    }
}

/// The crawl of a site from a seed, when the URLs that the links of the
/// site lead to from the seed are finitely many, ends after at most that
/// many URLs.
pub proof fn lemma_crawl_of_finite_site_ends(seed: UrlView, site: Site, urls: Set<UrlView>)
    requires
        urls.finite(),
        urls.contains(seed),
        closed_under_links(site, urls),
    ensures
        exists|n: nat| n <= urls.len() && #[trigger] ends_after(initial_state(seed), site, n),
{
    let state = initial_state(seed);
    assert(waits_within(state, urls));
    lemma_crawl_ends(state, site, urls);
    urls.lemma_len_filter(|other: UrlView| !state.visited.contains(other.text));
    let n: nat = choose|n: nat|
        n <= unvisited(urls, state.visited).len() && #[trigger] ends_after(state, site, n);
    assert(n <= urls.len());
}

/// `text` is the text of a URL that was visited or waits.
pub open spec fn known(state: CrawlState, text: Seq<char>) -> bool {
    state.visited.contains(text) || holds_text(state.to_visit, text)
}

/// The links of every visited page of `host` are known: each was visited
/// or waits.
pub open spec fn links_known(state: CrawlState, site: Site, host: Option<Seq<char>>) -> bool {
    forall|url: UrlView, k: int|
        state.visited.contains(url.text) && url.host == host && site.dom().contains(url.text)
            && 0 <= k < document_links(url, site[url.text]).len() ==> known(
            state,
            (#[trigger] document_links(url, site[url.text])[k]).text,
        )
}

/// `text` is the text of a URL that was visited before the crawl went on
/// from `state`, or that the crawl hands out in its first `n` steps.
pub open spec fn reached(state: CrawlState, site: Site, n: nat, text: Seq<char>) -> bool {
    state.visited.contains(text) || holds_text(crawled(state, site, n), text)
}

/// `path` leads from URL to URL over the links of the pages of `site` that
/// stay on the host of their page.
pub open spec fn is_link_path(site: Site, path: Seq<UrlView>) -> bool {
    forall|k: int|
        0 <= k < path.len() - 1 ==> site.dom().contains((#[trigger] path[k]).text)
            && document_links(path[k], site[path[k].text]).contains(path[k + 1])
}

/// A step loses no URL: what was known stays known, and the links of the
/// page that the step fetched are known after it.
pub proof fn lemma_step_keeps_known(state: CrawlState, site: Site, host: Option<Seq<char>>)
    requires
        waits_on_host(state, host),
        links_known(state, site, host),
    ensures
        links_known(crawl_step(state, site).1, site, host),
        forall|text: Seq<char>|
            known(state, text) ==> #[trigger] known(crawl_step(state, site).1, text),
{
    lemma_next_document(state);
    lemma_step_on_host(state, site, host);
    let (next, taken) = next_document(state);
    let later = crawl_step(state, site).1;
    if next is Some && site.dom().contains(next->0.text) {
        lemma_enqueued_all(taken, document_links(next->0, site[next->0.text]));
    }
    assert forall|text: Seq<char>| known(taken, text) implies #[trigger] known(later, text) by {
        if holds_text(taken.to_visit, text) {
            let i: int = choose|i: int|
                0 <= i < taken.to_visit.len() && #[trigger] taken.to_visit[i].text == text;
            if later != taken {
                assert(later.to_visit.contains(taken.to_visit[i]));
                let j: int = choose|j: int|
                    0 <= j < later.to_visit.len() && later.to_visit[j] == taken.to_visit[i];
                assert(later.to_visit[j].text == text);
            }
        }
    }
    assert forall|text: Seq<char>| known(state, text) implies #[trigger] known(later, text) by {
        if holds_text(state.to_visit, text) {
            let i: int = choose|i: int|
                0 <= i < state.to_visit.len() && #[trigger] state.to_visit[i].text == text;
            if taken.to_visit.contains(state.to_visit[i]) {
                let j: int = choose|j: int|
                    0 <= j < taken.to_visit.len() && taken.to_visit[j] == state.to_visit[i];
                assert(taken.to_visit[j].text == text);
            }
        }
        assert(known(taken, text));
    }
    assert forall|url: UrlView, k: int|
        later.visited.contains(url.text) && url.host == host && site.dom().contains(url.text)
            && 0 <= k < document_links(url, site[url.text]).len() implies known(
        later,
        (#[trigger] document_links(url, site[url.text])[k]).text,
    ) by {
        let link = document_links(url, site[url.text])[k];
        if state.visited.contains(url.text) {
            assert(known(state, link.text));
        } else {
            let taken_url = next->0;
            let links = document_links(taken_url, site[taken_url.text]);
            lemma_links_of_same_page(url, taken_url, page_hrefs(site[url.text]));
            assert(links[k] == link);
            if !taken.visited.contains(link.text) {
                assert(later.to_visit.contains(links[k]));
                let j: int = choose|j: int|
                    0 <= j < later.to_visit.len() && later.to_visit[j] == links[k];
                assert(later.to_visit[j].text == link.text);
            }
        }
    }
}

/// When the crawl has ended, every URL that was known has been handed out
/// or was visited before, and so have the links of every page read.
pub proof fn lemma_ended_crawl_is_closed(
    state: CrawlState,
    site: Site,
    host: Option<Seq<char>>,
    n: nat,
)
    requires
        ends_after(state, site, n),
        waits_on_host(state, host),
        links_known(state, site, host),
    ensures
        forall|text: Seq<char>| known(state, text) ==> #[trigger] reached(state, site, n, text),
        forall|url: UrlView, k: int|
            reached(state, site, n, url.text) && url.host == host && site.dom().contains(
                url.text,
            ) && 0 <= k < document_links(url, site[url.text]).len() ==> reached(
                state,
                site,
                n,
                (#[trigger] document_links(url, site[url.text])[k]).text,
            ),
    decreases n,
{
    lemma_next_document(state);
    let (next, later) = crawl_step(state, site);
    if n == 0 {
        assert forall|text: Seq<char>| known(state, text) implies state.visited.contains(
            text,
        ) by {
            if holds_text(state.to_visit, text) {
                let i: int = choose|i: int|
                    0 <= i < state.to_visit.len() && #[trigger] state.to_visit[i].text == text;
                assert(!next_document(state).1.to_visit.contains(state.to_visit[i]));
            }
        }
        assert forall|text: Seq<char>| reached(state, site, n, text) implies state.visited.contains(
            text,
        ) by {
            assert(crawled(state, site, n).len() == 0);
        }
    } else {
        let url = next->0;
        let tail = crawled(later, site, (n - 1) as nat);
        let all = crawled(state, site, n);
        lemma_step_keeps_known(state, site, host);
        lemma_step_on_host(state, site, host);
        if site.dom().contains(url.text) {
            lemma_enqueued_all(next_document(state).1, document_links(url, site[url.text]));
        }
        assert(later.visited == state.visited.insert(url.text));
        lemma_ended_crawl_is_closed(later, site, host, (n - 1) as nat);
        assert(all == seq![url] + tail);
        assert forall|text: Seq<char>|
            reached(later, site, (n - 1) as nat, text) <==> #[trigger] reached(
                state,
                site,
                n,
                text,
            ) by {
            if holds_text(tail, text) {
                let i: int = choose|i: int| 0 <= i < tail.len() && #[trigger] tail[i].text == text;
                assert(all[i + 1].text == text);
            }
            if text == url.text {
                assert(all[0].text == text);
            }
            if holds_text(all, text) {
                let i: int = choose|i: int| 0 <= i < all.len() && #[trigger] all[i].text == text;
                if i > 0 {
                    assert(tail[i - 1].text == text);
                }
            }
        }
        assert forall|text: Seq<char>| known(state, text) implies #[trigger] reached(
            state,
            site,
            n,
            text,
        ) by {
            assert(known(later, text));
            assert(reached(later, site, (n - 1) as nat, text));
        }
        assert forall|url: UrlView, k: int|
            reached(state, site, n, url.text) && url.host == host && site.dom().contains(
                url.text,
            ) && 0 <= k < document_links(url, site[url.text]).len() implies reached(
            state,
            site,
            n,
            (#[trigger] document_links(url, site[url.text])[k]).text,
        ) by {
            assert(reached(later, site, (n - 1) as nat, url.text));
            assert(reached(
                later,
                site,
                (n - 1) as nat,
                document_links(url, site[url.text])[k].text,
            ));
        }
    }
}

/// The URL at `k` on a path of links from the seed has the host of the
/// seed, and the crawl that has ended has handed it out.
proof fn lemma_path_is_crawled(seed: UrlView, site: Site, n: nat, path: Seq<UrlView>, k: int)
    requires
        ends_after(initial_state(seed), site, n),
        path.len() > 0,
        path[0] == seed,
        is_link_path(site, path),
        0 <= k < path.len(),
    ensures
        path[k].host == seed.host,
        holds_text(crawled(initial_state(seed), site, n), path[k].text),
    decreases k,
{
    let state = initial_state(seed);
    assert(waits_on_host(state, seed.host));
    assert(links_known(state, site, seed.host));
    lemma_ended_crawl_is_closed(state, site, seed.host, n);
    if k == 0 {
        assert(state.to_visit[0].text == seed.text);
        assert(known(state, seed.text));
        assert(reached(state, site, n, seed.text));
    } else {
        lemma_path_is_crawled(seed, site, n, path, k - 1);
        let page = path[k - 1];
        let links = document_links(page, site[page.text]);
        assert(site.dom().contains(page.text) && links.contains(path[k - 1 + 1]));
        let j: int = choose|j: int| 0 <= j < links.len() && links[j] == path[k];
        lemma_links_stay_on_host(page, page_hrefs(site[page.text]));
        assert(links[j].host == page.host);
        assert(reached(state, site, n, page.text));
        assert(reached(state, site, n, document_links(page, site[page.text])[j].text));
    }
}

/// The crawl is complete: when it has ended, it has handed out every URL to
/// which a path of links leads from the seed, over pages that were fetched
/// and links that stay on the host of their page.
pub proof fn lemma_crawl_reaches_every_page(seed: UrlView, site: Site, n: nat, path: Seq<UrlView>)
    requires
        ends_after(initial_state(seed), site, n),
        path.len() > 0,
        path[0] == seed,
        is_link_path(site, path),
    ensures
        forall|k: int|
            0 <= k < path.len() ==> holds_text(
                crawled(initial_state(seed), site, n),
                (#[trigger] path[k]).text,
            ),
{
    assert forall|k: int| 0 <= k < path.len() implies holds_text(
        crawled(initial_state(seed), site, n),
        (#[trigger] path[k]).text,
    ) by {
        lemma_path_is_crawled(seed, site, n, path, k);
    }
}

/// A path of links leads from `seed` to `url`.
pub open spec fn linked_from(seed: UrlView, site: Site, url: UrlView) -> bool {
    exists|path: Seq<UrlView>|
        path.len() > 0 && path[0] == seed && path.last() == url && #[trigger] is_link_path(
            site,
            path,
        )
}

/// Every URL that waits in `state` is one to which links lead from `seed`.
pub open spec fn waits_linked_from(seed: UrlView, site: Site, state: CrawlState) -> bool {
    forall|i: int|
        0 <= i < state.to_visit.len() ==> linked_from(seed, site, #[trigger] state.to_visit[i])
}

/// A link of a page to which links lead from the seed is itself a URL to
/// which links lead from the seed.
pub proof fn lemma_link_extends_path(seed: UrlView, site: Site, page: UrlView, k: int)
    requires
        linked_from(seed, site, page),
        site.dom().contains(page.text),
        0 <= k < document_links(page, site[page.text]).len(),
    ensures
        linked_from(seed, site, document_links(page, site[page.text])[k]),
{
    let path: Seq<UrlView> = choose|path: Seq<UrlView>|
        path.len() > 0 && path[0] == seed && path.last() == page && #[trigger] is_link_path(
            site,
            path,
        );
    let link = document_links(page, site[page.text])[k];
    let longer = path.push(link);
    assert forall|j: int| 0 <= j < longer.len() - 1 implies site.dom().contains(
        (#[trigger] longer[j]).text,
    ) && document_links(longer[j], site[longer[j].text]).contains(longer[j + 1]) by {
        if j < path.len() - 1 {
            assert(longer[j] == path[j] && longer[j + 1] == path[j + 1]);
        } else {
            assert(longer[j] == page && longer[j + 1] == link);
        }
    }
    assert(is_link_path(site, longer));
    assert(longer.last() == link);
}

/// A crawl in which only URLs wait to which links lead from `seed` hands
/// out only such URLs.
pub proof fn lemma_crawled_are_linked(seed: UrlView, site: Site, state: CrawlState, n: nat)
    requires
        waits_linked_from(seed, site, state),
    ensures
        forall|i: int|
            0 <= i < crawled(state, site, n).len() ==> linked_from(
                seed,
                site,
                #[trigger] crawled(state, site, n)[i],
            ),
    decreases n,
{
    if n > 0 {
        lemma_next_document(state);
        let (next, taken) = next_document(state);
        if next is Some {
            let url = next->0;
            let later = crawl_step(state, site).1;
            let at: int = choose|j: int| 0 <= j < state.to_visit.len() && state.to_visit[j] == url;
            assert(linked_from(seed, site, state.to_visit[at]));
            if site.dom().contains(url.text) {
                lemma_enqueued_all(taken, document_links(url, site[url.text]));
            }
            assert forall|i: int| 0 <= i < later.to_visit.len() implies linked_from(
                seed,
                site,
                #[trigger] later.to_visit[i],
            ) by {
                let found = later.to_visit[i];
                if taken.to_visit.contains(found) {
                    let j: int = choose|j: int|
                        0 <= j < taken.to_visit.len() && taken.to_visit[j] == found;
                    assert(state.to_visit.contains(taken.to_visit[j]));
                    let m: int = choose|m: int|
                        0 <= m < state.to_visit.len() && state.to_visit[m] == found;
                    assert(linked_from(seed, site, state.to_visit[m]));
                } else {
                    let links = document_links(url, site[url.text]);
                    let m: int = choose|m: int| 0 <= m < links.len() && links[m] == found;
                    lemma_link_extends_path(seed, site, url, m);
                }
            }
            lemma_crawled_are_linked(seed, site, later, (n - 1) as nat);
            let tail = crawled(later, site, (n - 1) as nat);
            let all = crawled(state, site, n);
            assert(all == seq![url] + tail);
            assert forall|i: int| 0 <= i < all.len() implies linked_from(
                seed,
                site,
                #[trigger] all[i],
            ) by {
                if i > 0 {
                    assert(all[i] == tail[i - 1]);
                }
            }
        }
    }
}

/// The crawl hands out no URL but the seed and those to which a path of
/// links leads from the seed.
pub proof fn lemma_crawl_reports_only_linked(seed: UrlView, site: Site, n: nat)
    ensures
        forall|i: int|
            0 <= i < crawled(initial_state(seed), site, n).len() ==> linked_from(
                seed,
                site,
                #[trigger] crawled(initial_state(seed), site, n)[i],
            ),
{
    let state = initial_state(seed);
    let alone: Seq<UrlView> = seq![seed];
    assert(alone.len() > 0 && alone[0] == seed && alone.last() == seed && is_link_path(
        site,
        alone,
    ));
    assert(linked_from(seed, site, state.to_visit[0]));
    lemma_crawled_are_linked(seed, site, state, n);
}

/// The texts of the seed and of the URLs to which a path of links leads
/// from the seed.
pub open spec fn linked_texts(seed: UrlView, site: Site) -> Set<Seq<char>> {
    Set::new(
        |text: Seq<char>|
            exists|url: UrlView| #[trigger] linked_from(seed, site, url) && url.text == text,
    )
}

/// A crawl that has ended has handed out the seed and the URLs to which a
/// path of links leads from the seed, each once and no others: as many URLs
/// as there are such texts.
pub proof fn lemma_crawl_hands_out_the_linked(seed: UrlView, site: Site, n: nat)
    requires
        ends_after(initial_state(seed), site, n),
    ensures
        texts_of(crawled(initial_state(seed), site, n)) == linked_texts(seed, site),
        linked_texts(seed, site).finite(),
        linked_texts(seed, site).len() == n,
        crawled(initial_state(seed), site, n).len() == n,
{
    let state = initial_state(seed);
    let all = crawled(state, site, n);
    lemma_crawl_reports_only_linked(seed, site, n);
    lemma_crawled_once(state, site, n);
    lemma_crawled_until_the_end(state, site, n, n);
    lemma_distinct_texts_count(all);
    assert forall|text: Seq<char>| texts_of(all).contains(text) <==> linked_texts(
        seed,
        site,
    ).contains(text) by {
        if holds_text(all, text) {
            let i: int = choose|i: int| 0 <= i < all.len() && #[trigger] all[i].text == text;
            assert(linked_from(seed, site, all[i]));
        }
        if linked_texts(seed, site).contains(text) {
            let url: UrlView = choose|url: UrlView|
                #[trigger] linked_from(seed, site, url) && url.text == text;
            let path: Seq<UrlView> = choose|path: Seq<UrlView>|
                path.len() > 0 && path[0] == seed && path.last() == url && #[trigger] is_link_path(
                    site,
                    path,
                );
            lemma_crawl_reaches_every_page(seed, site, n, path);
            assert(path[path.len() - 1].text == text);
        }
    }
    assert(texts_of(all) =~= linked_texts(seed, site));
}

} // verus!
