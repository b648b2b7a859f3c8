//! A list of URLs kept in ascending order of their texts. The crawler keeps
//! both its frontier and its visited URLs in one: the greatest URL is at the
//! end, and a URL is found by bisection.

use vstd::prelude::*;
use crate::address::{Url, UrlView};
use crate::text_order::{
    comes_before, lemma_text_before_strict_total, lemma_text_not_after_then_before, same_text,
    text_before,
};

verus! {

/// No URL of `s` comes before one that stands earlier in `s`.
pub open spec fn ascending(s: Seq<UrlView>) -> bool {
    forall|i: int, j: int| 0 <= i < j < s.len() ==> !text_before(s[j].text, s[i].text)
}

/// `p` is the first position of `s` whose URL does not come before `text`
/// (the length of `s`, if all do).
pub open spec fn is_insertion_point(s: Seq<UrlView>, text: Seq<char>, p: int) -> bool {
    &&& 0 <= p <= s.len()
    &&& forall|i: int| 0 <= i < p ==> text_before(#[trigger] s[i].text, text)
    &&& p < s.len() ==> !text_before(s[p].text, text)
}

/// The first position of `s` whose URL does not come before `text`.
pub open spec fn insertion_point(s: Seq<UrlView>, text: Seq<char>) -> int {
    choose|p: int| is_insertion_point(s, text, p)
}

/// `s` with `url` put in at its insertion point: before the URLs that are
/// equal to it or greater.
pub open spec fn inserted(s: Seq<UrlView>, url: UrlView) -> Seq<UrlView> {
    s.insert(insertion_point(s, url.text), url)
}

/// Some URL of `s` has the text `text`.
pub open spec fn holds_text(s: Seq<UrlView>, text: Seq<char>) -> bool {
    exists|i: int| 0 <= i < s.len() && #[trigger] s[i].text == text
}

/// The texts of the URLs of `s`.
pub open spec fn texts_of(s: Seq<UrlView>) -> Set<Seq<char>> {
    Set::new(|text: Seq<char>| holds_text(s, text))
}

/// Every list has exactly one insertion point for each text.
pub proof fn lemma_insertion_point_unique(s: Seq<UrlView>, text: Seq<char>, p: int)
    requires
        is_insertion_point(s, text, p),
    ensures
        insertion_point(s, text) == p,
{
    let q: int = insertion_point(s, text);
    assert(is_insertion_point(s, text, q));
    if q < p {
        assert(text_before(s[q].text, text));
    } else if p < q {
        assert(text_before(s[p].text, text));
    }
}

/// Every list has an insertion point for each text.
pub proof fn lemma_insertion_point_exists(s: Seq<UrlView>, text: Seq<char>)
    ensures
        is_insertion_point(s, text, insertion_point(s, text)),
{
    lemma_first_not_before(s, text, 0);
}

/// From a position before which all come before `text`, an insertion point
/// is found further on.
proof fn lemma_first_not_before(s: Seq<UrlView>, text: Seq<char>, n: int)
    requires
        0 <= n <= s.len(),
        forall|i: int| 0 <= i < n ==> text_before(#[trigger] s[i].text, text),
    ensures
        exists|p: int| is_insertion_point(s, text, p),
    decreases s.len() - n,
{
    if n < s.len() && text_before(s[n].text, text) {
        lemma_first_not_before(s, text, n + 1);
    } else {
        assert(is_insertion_point(s, text, n));
    }
}

/// Insertion keeps an ascending list ascending.
pub proof fn lemma_inserted_ascending(s: Seq<UrlView>, url: UrlView)
    requires
        ascending(s),
    ensures
        ascending(inserted(s, url)),
{
    lemma_insertion_point_exists(s, url.text);
    let p: int = insertion_point(s, url.text);
    let t: Seq<UrlView> = inserted(s, url);
    assert forall|i: int, j: int| 0 <= i < j < t.len() implies !text_before(
        t[j].text,
        t[i].text,
    ) by {
        if j == p {
            assert(text_before(s[i].text, url.text));
            lemma_text_before_strict_total(s[i].text, url.text);
        } else if i == p {
            if text_before(s[j - 1].text, url.text) {
                if p < j - 1 {
                    lemma_text_not_after_then_before(s[p].text, s[j - 1].text, url.text);
                }
            }
        } else {
            let oi: int = if i < p { i } else { i - 1 };
            let oj: int = if j < p { j } else { j - 1 };
            assert(t[i] == s[oi]);
            assert(t[j] == s[oj]);
        }
    }
}

/// After an insertion the list holds the texts it held and that of the new
/// URL, and is one longer.
pub proof fn lemma_inserted_holds(s: Seq<UrlView>, url: UrlView)
    ensures
        inserted(s, url).len() == s.len() + 1,
        forall|text: Seq<char>|
            holds_text(inserted(s, url), text) <==> (holds_text(s, text) || text == url.text),
{
    lemma_insertion_point_exists(s, url.text);
    let p: int = insertion_point(s, url.text);
    let t: Seq<UrlView> = inserted(s, url);
    assert forall|text: Seq<char>| holds_text(t, text) <==> (holds_text(s, text) || text
        == url.text) by {
        if holds_text(t, text) {
            let i: int = choose|i: int| 0 <= i < t.len() && #[trigger] t[i].text == text;
            if i < p {
                assert(s[i].text == text);
            } else if i > p {
                assert(s[i - 1].text == text);
            }
        }
        if holds_text(s, text) {
            let i: int = choose|i: int| 0 <= i < s.len() && #[trigger] s[i].text == text;
            if i < p {
                assert(t[i].text == text);
            } else {
                assert(t[i + 1].text == text);
            }
        }
        if text == url.text {
            assert(t[p].text == text);
        }
    }
}

/// After an insertion the list holds the URLs it held and the new one.
pub proof fn lemma_inserted_contains(s: Seq<UrlView>, url: UrlView)
    ensures
        forall|other: UrlView|
            #![trigger inserted(s, url).contains(other)]
            #![trigger s.contains(other)]
            inserted(s, url).contains(other) <==> (s.contains(other) || other == url),
{
    lemma_insertion_point_exists(s, url.text);
    let p: int = insertion_point(s, url.text);
    let t: Seq<UrlView> = inserted(s, url);
    assert forall|other: UrlView| t.contains(other) <==> (s.contains(other) || other == url) by {
        if t.contains(other) {
            let i: int = choose|i: int| 0 <= i < t.len() && t[i] == other;
            if i < p {
                assert(s[i] == other);
            } else if i > p {
                assert(s[i - 1] == other);
            }
        }
        if s.contains(other) {
            let i: int = choose|i: int| 0 <= i < s.len() && s[i] == other;
            if i < p {
                assert(t[i] == other);
            } else {
                assert(t[i + 1] == other);
            }
        }
        if other == url {
            assert(t[p] == other);
        }
    }
}

/// A URL put into the empty list is the whole list.
pub proof fn lemma_inserted_into_empty(url: UrlView)
    ensures
        inserted(Seq::empty(), url) == seq![url],
{
    lemma_insertion_point_exists(Seq::empty(), url.text);
    assert(inserted(Seq::empty(), url) =~= seq![url]);
}

/// In an ascending list a text is held, if at all, at its insertion point.
pub proof fn lemma_held_at_insertion_point(s: Seq<UrlView>, text: Seq<char>)
    requires
        ascending(s),
    ensures
        holds_text(s, text) <==> (insertion_point(s, text) < s.len() && s[insertion_point(
            s,
            text,
        )].text == text),
{
    lemma_insertion_point_exists(s, text);
    let p: int = insertion_point(s, text);
    if holds_text(s, text) {
        let i: int = choose|i: int| 0 <= i < s.len() && #[trigger] s[i].text == text;
        lemma_text_before_strict_total(text, text);
        if i < p {
            assert(text_before(s[i].text, text));
        }
        if p < i {
            lemma_text_before_strict_total(s[p].text, text);
        }
    }
}

/// URLs in ascending order of their texts; equal URLs may stand side by side.
pub struct OrderedUrls {
    items: Vec<Url>,
}

impl View for OrderedUrls {
    type V = Seq<UrlView>;

    closed spec fn view(&self) -> Seq<UrlView> {
        Seq::new(self.items@.len(), |i: int| self.items@[i]@)
    }
}

impl OrderedUrls {
    /// The URLs stand in ascending order.
    #[verifier::type_invariant]
    spec fn in_order(self) -> bool {
        ascending(self@)
    }

    /// The empty list.
    pub fn new() -> (list: Self)
        ensures
            list@ == Seq::<UrlView>::empty(),
    {
        OrderedUrls { items: Vec::new() }
    }

    /// The number of URLs in the list, equal ones counted each.
    pub fn len(&self) -> (n: usize)
        ensures
            n == self@.len(),
            ascending(self@),
    {
        proof {
            use_type_invariant(self);
        }
        self.items.len()
    }

    /// The greatest URL of the list, if the list is not empty.
    pub fn last(&self) -> (greatest: Option<&Url>)
        ensures
            ascending(self@),
            self@.len() == 0 ==> greatest is None,
            self@.len() > 0 ==> greatest is Some && greatest->0@ == self@.last(),
    {
        proof {
            use_type_invariant(self);
        }
        let n = self.items.len();
        if n == 0 {
            None
        } else {
            Some(&self.items[n - 1])
        }
    }

    /// The first position whose URL does not come before `text`.
    pub fn position(&self, text: &str) -> (p: usize)
        ensures
            p == insertion_point(self@, text@),
            is_insertion_point(self@, text@, p as int),
            ascending(self@),
    {
        proof {
            use_type_invariant(self);
        }
        let mut low: usize = 0;
        let mut high: usize = self.items.len();
        while low < high
            invariant
                low <= high <= self@.len(),
                self@.len() == self.items@.len(),
                ascending(self@),
                forall|i: int| 0 <= i < low ==> text_before(#[trigger] self@[i].text, text@),
                forall|i: int| high <= i < self@.len() ==> !text_before(#[trigger] self@[i].text, text@),
            decreases high - low,
        {
            let mid: usize = low + (high - low) / 2;
            if comes_before(self.items[mid].as_str(), text) {
                assert forall|i: int| 0 <= i < mid + 1 implies text_before(
                    #[trigger] self@[i].text,
                    text@,
                ) by {
                    if i < mid {
                        lemma_text_not_after_then_before(self@[i].text, self@[mid as int].text, text@);
                    }
                }
                low = mid + 1;
            } else {
                assert forall|i: int| mid <= i < self@.len() implies !text_before(
                    #[trigger] self@[i].text,
                    text@,
                ) by {
                    if mid < i && text_before(self@[i].text, text@) {
                        lemma_text_not_after_then_before(self@[mid as int].text, self@[i].text, text@);
                    }
                }
                high = mid;
            }
        }
        proof {
            lemma_insertion_point_unique(self@, text@, low as int);
        }
        low
    }

    /// Whether the list holds a URL with the text of `url`.
    pub fn contains(&self, url: &Url) -> (held: bool)
        ensures
            held == holds_text(self@, url@.text),
    {
        let p = self.position(url.as_str());
        proof {
            lemma_held_at_insertion_point(self@, url@.text);
        }
        p < self.items.len() && same_text(self.items[p].as_str(), url.as_str())
    }

    /// Puts `url` into the list, before the URLs equal to it or greater.
    pub fn insert(&mut self, url: Url)
        ensures
            final(self)@ == inserted(old(self)@, url@),
            ascending(final(self)@),
    {
        let p = self.position(url.as_str());
        proof {
            lemma_inserted_ascending(self@, url@);
        }
        let ghost before = self@;
        let mut items: Vec<Url> = Vec::new();
        std::mem::swap(&mut items, &mut self.items);
        items.insert(p, url);
        assert(Seq::new(items@.len(), |i: int| items@[i]@) =~= inserted(before, url@));
        self.items = items;
    }

    /// Takes the greatest URL out of the list, if the list is not empty.
    pub fn pop_last(&mut self) -> (greatest: Option<Url>)
        ensures
            ascending(old(self)@),
            ascending(final(self)@),
            old(self)@.len() == 0 ==> greatest is None && final(self)@ == old(self)@,
            old(self)@.len() > 0 ==> greatest is Some && greatest->0@ == old(self)@.last()
                && final(self)@ == old(self)@.drop_last(),
    {
        proof {
            use_type_invariant(&*self);
        }
        let ghost before = self@;
        let mut items: Vec<Url> = Vec::new();
        std::mem::swap(&mut items, &mut self.items);
        let greatest = items.pop();
        let ghost after = if before.len() == 0 {
            before
        } else {
            before.drop_last()
        };
        assert(Seq::new(items@.len(), |i: int| items@[i]@) =~= after);
        assert(ascending(after)) by {
            assert forall|i: int, j: int| 0 <= i < j < after.len() implies !text_before(
                after[j].text,
                after[i].text,
            ) by {
                assert(after[i] == before[i] && after[j] == before[j]);
            }
        }
        self.items = items;
        greatest
    }
}

} // verus!
