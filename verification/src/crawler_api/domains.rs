//! The record of one domain's crawl, and the collection of the records.

use vstd::prelude::*;
use crate::address::{Url, UrlView};
use crate::crawl_domain::{host_of, CrawlDomain};
use crate::text_order::same_text;

verus! {

/// The mathematical value of a [`DomainUrls`].
pub struct DomainRecord {
    /// Whether the crawl of the domain has ended.
    pub crawl_completed: bool,
    /// The URLs crawled so far, in the order in which they were crawled.
    pub urls: Seq<UrlView>,
}

/// The record of a domain that was just registered.
pub open spec fn empty_record() -> DomainRecord {
    DomainRecord { crawl_completed: false, urls: Seq::empty() }
}

/// The URLs of a domain as the server knows them.
#[derive(Debug)]
pub struct DomainUrls {
    /// Whether the crawl of the domain has ended.
    pub crawl_completed: bool,
    /// The URLs crawled so far.
    pub urls: Vec<Url>,
}

impl View for DomainUrls {
    type V = DomainRecord;

    open spec fn view(&self) -> DomainRecord {
        DomainRecord { crawl_completed: self.crawl_completed, urls: self.urls.deep_view() }
    }
}

impl Default for DomainUrls {
    fn default() -> (record: Self)
        ensures
            record@ == empty_record(),
    {
        let record = DomainUrls { crawl_completed: false, urls: Vec::new() };
        assert(record.urls.deep_view() =~= Seq::empty());
        record
    }
}

impl DomainUrls {
    /// Adds a crawled URL to the record.
    pub fn add_url(&mut self, url: Url)
        ensures
            final(self)@.urls == old(self)@.urls.push(url@),
            final(self)@.crawl_completed == old(self)@.crawl_completed,
    {
        self.urls.push(url);
        assert(self.urls.deep_view() =~= old(self).urls.deep_view().push(url@));
    }

    /// Notes that the crawl of the domain has ended.
    pub fn complete(&mut self)
        ensures
            final(self)@.urls == old(self)@.urls,
            final(self)@.crawl_completed,
    {
        self.crawl_completed = true;
    }
}

/// The registered domains, each with what stands for its record: the record
/// itself, or a handle by which the crawl and the queries share it. Its value
/// is the map from the hosts of the domains to what was registered with them.
pub struct Domains<R> {
    entries: Vec<(CrawlDomain, R)>,
}

impl<R> View for Domains<R> {
    type V = Map<Seq<char>, R>;

    closed spec fn view(&self) -> Map<Seq<char>, R> {
        Map::new(
            |host: Seq<char>| self.holds(host),
            |host: Seq<char>| self.entries@[self.index_of(host)].1,
        )
    }
}

impl<R> Default for Domains<R> {
    fn default() -> (domains: Self)
        ensures
            domains@ == Map::<Seq<char>, R>::empty(),
    {
        Domains::new()
    }
}

impl<R> Domains<R> {
    /// No two entries are of the same host.
    #[verifier::type_invariant]
    spec fn each_host_once(self) -> bool {
        forall|i: int, j: int|
            0 <= i < j < self.entries@.len() ==> host_of((#[trigger] self.entries@[i]).0@)
                != host_of((#[trigger] self.entries@[j]).0@)
    }

    /// The entry at `i` is that of `host`.
    spec fn is_entry_of(self, i: int, host: Seq<char>) -> bool {
        0 <= i < self.entries@.len() && host_of(self.entries@[i].0@) == host
    }

    /// Some entry is that of `host`.
    spec fn holds(self, host: Seq<char>) -> bool {
        exists|i: int| self.is_entry_of(i, host)
    }

    /// The position of the entry of `host`.
    spec fn index_of(self, host: Seq<char>) -> int {
        choose|i: int| self.is_entry_of(i, host)
    }

    /// A registry without domains.
    pub fn new() -> (domains: Self)
        ensures
            domains@ == Map::<Seq<char>, R>::empty(),
    {
        let domains = Domains { entries: Vec::new() };
        assert(domains@ =~= Map::empty());
        domains
    }

    /// The number of registered domains.
    pub fn len(&self) -> (n: usize)
        ensures
            self@.dom().finite(),
            n == self@.dom().len(),
    {
        proof {
            use_type_invariant(self);
            self.lemma_count(self.entries@.len() as int);
            assert(self@.dom() =~= self.hosts_before(self.entries@.len() as int));
        }
        self.entries.len()
    }

    /// The hosts of the first `n` entries.
    spec fn hosts_before(self, n: int) -> Set<Seq<char>> {
        Set::new(|host: Seq<char>| exists|i: int| 0 <= i < n && self.is_entry_of(i, host))
    }

    /// The first `n` entries are of `n` hosts.
    proof fn lemma_count(self, n: int)
        requires
            self.each_host_once(),
            0 <= n <= self.entries@.len(),
        ensures
            self.hosts_before(n).finite(),
            self.hosts_before(n).len() == n,
        decreases n,
    {
        if n == 0 {
            assert(self.hosts_before(n) =~= Set::empty());
        } else {
            self.lemma_count(n - 1);
            let host = host_of(self.entries@[n - 1].0@);
            assert(self.is_entry_of(n - 1, host));
            assert(self.hosts_before(n) =~= self.hosts_before(n - 1).insert(host));
        }
    }

    /// The position of the entry of `host`, if there is one.
    fn find(&self, host: &str) -> (found: Option<usize>)
        ensures
            found is Some <==> self@.dom().contains(host@),
            found is Some ==> self.is_entry_of(found->0 as int, host@) && self@[host@]
                == self.entries@[found->0 as int].1,
    {
        proof {
            use_type_invariant(self);
        }
        let mut i: usize = 0;
        while i < self.entries.len()
            invariant
                i <= self.entries@.len(),
                self.each_host_once(),
                forall|j: int| 0 <= j < i ==> !self.is_entry_of(j, host@),
            decreases self.entries@.len() - i,
        {
            if same_text(self.entries[i].0.domain(), host) {
                assert(self.is_entry_of(i as int, host@));
                assert(self.is_entry_of(self.index_of(host@), host@));
                return Some(i);
            }
            i += 1;
        }
        None
    }

    /// Whether `domain_key` is registered.
    pub fn contains_key(&self, domain_key: &CrawlDomain) -> (held: bool)
        ensures
            held == self@.dom().contains(host_of(domain_key@)),
    {
        self.find(domain_key.domain()).is_some()
    }

    /// What was registered with `domain_key`, if it is registered.
    pub fn get(&self, domain_key: &CrawlDomain) -> (found: Option<&R>)
        ensures
            found is Some <==> self@.dom().contains(host_of(domain_key@)),
            found is Some ==> *found->0 == self@[host_of(domain_key@)],
    {
        match self.find(domain_key.domain()) {
            Some(i) => Some(&self.entries[i].1),
            None => None,
        }
    }

    /// Registers `domain_key` with `urls`, unless it is registered. Returns
    /// whether it was not.
    pub fn insert_new(&mut self, domain_key: CrawlDomain, urls: R) -> (new: bool)
        ensures
            new == !old(self)@.dom().contains(host_of(domain_key@)),
            new ==> final(self)@ == old(self)@.insert(host_of(domain_key@), urls),
            !new ==> final(self)@ == old(self)@,
    {
        proof {
            use_type_invariant(&*self);
        }
        if self.find(domain_key.domain()).is_some() {
            return false;
        }
        let ghost before = *self;
        let ghost host = host_of(domain_key@);
        let mut entries: Vec<(CrawlDomain, R)> = Vec::new();
        std::mem::swap(&mut entries, &mut self.entries);
        entries.push((domain_key, urls));
        let ghost after = Domains { entries };
        proof {
            assert forall|i: int, j: int| 0 <= i < j < after.entries@.len() implies host_of(
                (#[trigger] after.entries@[i]).0@,
            ) != host_of((#[trigger] after.entries@[j]).0@) by {
                if j == before.entries@.len() {
                    assert(!before.is_entry_of(i, host));
                }
            }
            assert(after.is_entry_of(before.entries@.len() as int, host));
            assert forall|h: Seq<char>| after.holds(h) <==> (before.holds(h) || h == host) by {
                if before.holds(h) {
                    assert(after.is_entry_of(before.index_of(h), h));
                }
                if after.holds(h) && h != host {
                    assert(before.is_entry_of(after.index_of(h), h));
                }
            }
            assert forall|h: Seq<char>| after.holds(h) implies #[trigger] after@[h]
                == before@.insert(host, urls)[h] by {
                let i = after.index_of(h);
                assert(after.is_entry_of(i, h));
                if h != host {
                    let j = before.index_of(h);
                    assert(before.is_entry_of(i, h));
                    assert(before.is_entry_of(j, h));
                }
            }
            assert(after@ =~= before@.insert(host, urls));
        }
        self.entries = entries;
        true
    }
}

} // verus!
