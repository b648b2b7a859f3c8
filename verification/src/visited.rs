//! The set of URLs that a crawl has visited.

use vstd::prelude::*;
use crate::address::{Url, UrlView};
use crate::ordered::{
    holds_text, inserted, insertion_point, lemma_inserted_holds, lemma_insertion_point_exists,
    texts_of, OrderedUrls,
};

verus! {

/// No two URLs of `s` have the same text.
pub open spec fn distinct_texts(s: Seq<UrlView>) -> bool {
    forall|i: int, j: int| 0 <= i < j < s.len() ==> s[i].text != s[j].text
}

/// A list of URLs with different texts has as many texts as URLs.
pub proof fn lemma_distinct_texts_count(s: Seq<UrlView>)
    requires
        distinct_texts(s),
    ensures
        texts_of(s).finite(),
        texts_of(s).len() == s.len(),
    decreases s.len(),
{
    if s.len() == 0 {
        assert(texts_of(s) =~= Set::empty());
    } else {
        let rest: Seq<UrlView> = s.drop_last();
        lemma_distinct_texts_count(rest);
        assert forall|text: Seq<char>| holds_text(s, text) <==> (holds_text(rest, text) || text
            == s.last().text) by {
            if holds_text(s, text) {
                let i: int = choose|i: int| 0 <= i < s.len() && #[trigger] s[i].text == text;
                if i < rest.len() {
                    assert(rest[i].text == text);
                }
            }
            if holds_text(rest, text) {
                let i: int = choose|i: int| 0 <= i < rest.len() && #[trigger] rest[i].text == text;
                assert(s[i].text == text);
            }
            if text == s.last().text {
                assert(s[s.len() - 1].text == text);
            }
        }
        assert(texts_of(s) =~= texts_of(rest).insert(s.last().text));
        if holds_text(rest, s.last().text) {
            let i: int = choose|i: int|
                0 <= i < rest.len() && #[trigger] rest[i].text == s.last().text;
            assert(s[i].text == s[s.len() - 1].text);
        }
    }
}

/// A URL whose text the list does not hold keeps the texts different.
pub proof fn lemma_inserted_distinct(s: Seq<UrlView>, url: UrlView)
    requires
        distinct_texts(s),
        !holds_text(s, url.text),
    ensures
        distinct_texts(inserted(s, url)),
{
    lemma_insertion_point_exists(s, url.text);
    let p: int = insertion_point(s, url.text);
    let t: Seq<UrlView> = inserted(s, url);
    assert forall|i: int, j: int| 0 <= i < j < t.len() implies t[i].text != t[j].text by {
        let oi: int = if i < p { i } else { i - 1 };
        let oj: int = if j < p { j } else { j - 1 };
        if i == p {
            assert(t[j] == s[oj]);
            assert(s[oj].text != url.text);
        } else if j == p {
            assert(t[i] == s[oi]);
            assert(s[oi].text != url.text);
        } else {
            assert(t[i] == s[oi] && t[j] == s[oj]);
        }
    }
}

/// The URLs that a crawl has visited, each once. Its value is the set of
/// their texts.
pub struct VisitedUrls {
    urls: OrderedUrls,
}

impl View for VisitedUrls {
    type V = Set<Seq<char>>;

    closed spec fn view(&self) -> Set<Seq<char>> {
        texts_of(self.urls@)
    }
}

impl VisitedUrls {
    /// No URL stands in the list twice.
    #[verifier::type_invariant]
    spec fn each_once(self) -> bool {
        distinct_texts(self.urls@)
    }

    /// The empty set.
    pub fn new() -> (visited: Self)
        ensures
            visited@ == Set::<Seq<char>>::empty(),
    {
        let visited = VisitedUrls { urls: OrderedUrls::new() };
        assert(visited@ =~= Set::empty());
        visited
    }

    /// The number of URLs in the set.
    pub fn len(&self) -> (n: usize)
        ensures
            self@.finite(),
            n == self@.len(),
    {
        proof {
            use_type_invariant(self);
            lemma_distinct_texts_count(self.urls@);
        }
        self.urls.len()
    }

    /// Whether `url` is in the set.
    pub fn contains(&self, url: &Url) -> (held: bool)
        ensures
            held == self@.contains(url@.text),
    {
        self.urls.contains(url)
    }

    /// Puts `url` into the set. Returns whether it was new to the set.
    pub fn insert(&mut self, url: Url) -> (new: bool)
        ensures
            final(self)@ == old(self)@.insert(url@.text),
            new == !old(self)@.contains(url@.text),
    {
        proof {
            use_type_invariant(&*self);
        }
        if self.urls.contains(&url) {
            assert(self@ =~= self@.insert(url@.text));
            return false;
        }
        let ghost before = self.urls@;
        proof {
            lemma_inserted_distinct(before, url@);
            lemma_inserted_holds(before, url@);
        }
        let mut urls = OrderedUrls::new();
        std::mem::swap(&mut urls, &mut self.urls);
        urls.insert(url);
        assert(texts_of(urls@) =~= texts_of(before).insert(url@.text));
        self.urls = urls;
        true
    }
}

} // verus!
