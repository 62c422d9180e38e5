use vstd::prelude::*;
use crate::graph::{
    lemma_reachable_in_larger_graph, lemma_reachable_link, lemma_reachable_more_steps,
    reachable_within,
};
use crate::links::{extract_urls, is_absolute, is_absolute_url, links_of, strs};

verus! {

/// Why a page could not be fetched.
#[derive(Clone, Copy, Debug, PartialEq, Eq, Structural)]
pub enum FetchError {
    Timeout,
    ConnectionError,
    HttpStatusError(u16),
    DecodeError,
}

/// Why a crawl could not start, or could not go on.
#[derive(Clone, Debug)]
pub enum CrawlError {
    /// The concurrency limit is zero.
    ZeroConcurrency,
    /// The seed has no `http://` or `https://` origin.
    SeedNotAbsolute,
    /// The seed itself could not be fetched, so there is nothing to crawl.
    SeedFailed { url: String, error: FetchError },
}

/// A fetch that the crawl hands out: the page `url`, to be reported back under `id`.
pub struct Task {
    pub id: usize,
    pub url: String,
}

/// A page whose fetch failed, and how.
pub struct Failure {
    pub url: String,
    pub error: FetchError,
}

/// How many links away from the seed a fetched page may lie when the crawl
/// follows links `d` deep: the pages at depth `d` are reported, never fetched.
pub open spec fn fetch_depth(d: nat) -> nat {
    if d == 0 {
        0
    } else {
        (d - 1) as nat
    }
}

/// The links of `links` that a crawl which already knows `known` takes up: each
/// absolute one that neither `known` nor an earlier link holds, in order.
pub open spec fn fresh_links(known: Seq<Seq<char>>, links: Seq<Seq<char>>) -> Seq<Seq<char>>
    decreases links.len(),
{
    if links.len() == 0 {
        Seq::empty()
    } else {
        let prev = fresh_links(known, links.drop_last());
        let l = links.last();
        if is_absolute(l) && !known.contains(l) && !prev.contains(l) {
            prev.push(l)
        } else {
            prev
        }
    }
}

pub(crate) proof fn lemma_concat_contains(a: Seq<Seq<char>>, b: Seq<Seq<char>>, x: Seq<char>)
    ensures
        (a + b).contains(x) <==> (a.contains(x) || b.contains(x)),
{
    if a.contains(x) {
        let i = choose|i: int| 0 <= i < a.len() && a[i] == x;
        assert((a + b)[i] == x);
    }
    if b.contains(x) {
        let i = choose|i: int| 0 <= i < b.len() && b[i] == x;
        assert((a + b)[a.len() + i] == x);
    }
    if (a + b).contains(x) {
        let i = choose|i: int| 0 <= i < (a + b).len() && (a + b)[i] == x;
        if i < a.len() {
            assert(a[i] == x);
        } else {
            assert(b[i - a.len()] == x);
        }
    }
}

proof fn lemma_push_contains(s: Seq<Seq<char>>, x: Seq<char>)
    ensures
        forall|y: Seq<char>| s.contains(y) ==> #[trigger] s.push(x).contains(y),
        s.push(x).contains(x),
{
    assert(s.push(x)[s.len() as int] == x);
    assert forall|y: Seq<char>| s.contains(y) implies #[trigger] s.push(x).contains(y) by {
        let i = choose|i: int| 0 <= i < s.len() && s[i] == y;
        assert(s.push(x)[i] == y);
    }
}

pub(crate) proof fn lemma_push_contains_iff<A>(s: Seq<A>, x: A)
    ensures
        forall|y: A| #[trigger] s.push(x).contains(y) <==> (s.contains(y) || y == x),
{
    assert(s.push(x)[s.len() as int] == x);
    assert forall|y: A| #[trigger] s.push(x).contains(y) <==> (s.contains(y) || y == x) by {
        if s.contains(y) {
            let i = choose|i: int| 0 <= i < s.len() && s[i] == y;
            assert(s.push(x)[i] == y);
        }
        if s.push(x).contains(y) {
            let i = choose|i: int| 0 <= i < s.len() + 1 && s.push(x)[i] == y;
            if i < s.len() {
                assert(s[i] == y);
            }
        }
    }
}

/// Whether `v` holds a string equal to `s`.
fn contains_url(v: &Vec<String>, s: &String) -> (r: bool)
    ensures
        r == strs(v@).contains(s@),
{
    let mut i: usize = 0;
    while i < v.len()
        invariant
            i <= v.len(),
            forall|j: int| 0 <= j < i ==> v@[j]@ != s@,
        decreases v.len() - i,
    {
        if v[i] == *s {
            assert(strs(v@)[i as int] == s@);
            return true;
        }
        i += 1;
    }
    assert(!strs(v@).contains(s@)) by {
        if strs(v@).contains(s@) {
            let j = choose|j: int| 0 <= j < strs(v@).len() && strs(v@)[j] == s@;
            assert(v@[j]@ == s@);
        }
    }
    false
}

/// Where `x` stands in `v`, if it does.
fn find_index(v: &Vec<usize>, x: usize) -> (r: Option<usize>)
    ensures
        match r {
            Some(k) => k < v@.len() && v@[k as int] == x,
            None => !v@.contains(x),
        },
{
    let mut i: usize = 0;
    while i < v.len()
        invariant
            i <= v.len(),
            forall|j: int| 0 <= j < i ==> v@[j] != x,
        decreases v.len() - i,
    {
        if v[i] == x {
            return Some(i);
        }
        i += 1;
    }
    None
}

/// The indices `a`, `a + 1`, ..., `b - 1`.
pub open spec fn index_range(a: int, b: int) -> Seq<usize> {
    Seq::new((b - a) as nat, |i: int| (a + i) as usize)
}

/// The state of one crawl run. Each URL that the crawl has taken up stands in
/// `urls` once, with the number of links it lies from the seed; the seed comes
/// first. Pages wait in `queue` until a fetch slot is free, and are in `active`
/// while their fetch runs.
pub struct Crawler {
    urls: Vec<String>,
    hops: Vec<u64>,
    max_depth: u64,
    limit: usize,
    queue: Vec<usize>,
    active: Vec<usize>,
    emitted: Vec<String>,
    failures: Vec<Failure>,
    fatal: bool,
    /// The links found on each page fetched so far.
    graph: Ghost<Map<Seq<char>, Seq<Seq<char>>>>,
    /// Every URL handed out for fetching, in order.
    fetched: Ghost<Seq<Seq<char>>>,
}

impl Crawler {
    pub closed spec fn seed(&self) -> Seq<char> {
        self.urls@[0]@
    }

    /// The URLs taken up so far, in the order in which they were found.
    pub closed spec fn known(&self) -> Seq<Seq<char>> {
        strs(self.urls@)
    }

    /// How many links from the seed each known URL lies.
    pub closed spec fn hop(&self, i: int) -> nat {
        self.hops@[i] as nat
    }

    pub closed spec fn depth_limit(&self) -> nat {
        self.max_depth as nat
    }

    pub closed spec fn concurrency(&self) -> nat {
        self.limit as nat
    }

    /// Indices into `known` of the pages waiting to be fetched, first in line first.
    pub closed spec fn pending(&self) -> Seq<usize> {
        self.queue@
    }

    /// Indices into `known` of the pages whose fetch runs.
    pub closed spec fn in_flight(&self) -> Seq<usize> {
        self.active@
    }

    /// The URLs reported as visited, in order.
    pub closed spec fn emitted_urls(&self) -> Seq<Seq<char>> {
        strs(self.emitted@)
    }

    /// The URLs whose fetch failed, with the error.
    pub closed spec fn failed(&self) -> Seq<(Seq<char>, FetchError)> {
        self.failures@.map_values(|f: Failure| (f.url@, f.error))
    }

    pub closed spec fn stopped(&self) -> bool {
        self.fatal
    }

    /// The links found on each page fetched so far.
    pub closed spec fn link_graph(&self) -> Map<Seq<char>, Seq<Seq<char>>> {
        self.graph@
    }

    /// Every URL handed out for fetching during the run, in order.
    pub closed spec fn fetched_urls(&self) -> Seq<Seq<char>> {
        self.fetched@
    }

    closed spec fn core_ok(&self) -> bool {
        &&& self.limit >= 1
        &&& self.urls@.len() >= 1
        &&& self.hops@.len() == self.urls@.len()
        &&& self.hops@[0] == 0
        &&& strs(self.urls@).no_duplicates()
        &&& forall|i: int| 0 <= i < self.urls@.len() ==> #[trigger] self.hops@[i] <= self.max_depth
        &&& forall|i: int|
            0 <= i < self.urls@.len() ==> reachable_within(
                self.graph@,
                self.urls@[0]@,
                #[trigger] strs(self.urls@)[i],
                self.hops@[i] as nat,
            )
        &&& forall|j: int|
            0 <= j < self.queue@.len() ==> {
                let i = #[trigger] self.queue@[j];
                &&& i < self.urls@.len()
                &&& (i == 0 || self.hops@[i as int] < self.max_depth)
                &&& !self.fetched@.contains(strs(self.urls@)[i as int])
            }
        &&& self.queue@.no_duplicates()
        &&& forall|j: int|
            0 <= j < self.active@.len() ==> {
                let i = #[trigger] self.active@[j];
                &&& i < self.urls@.len()
                &&& (i == 0 || self.hops@[i as int] < self.max_depth)
                &&& self.fetched@.contains(strs(self.urls@)[i as int])
                &&& !self.graph@.contains_key(strs(self.urls@)[i as int])
            }
        &&& self.active@.no_duplicates()
        &&& self.active@.len() <= self.limit
        &&& self.fetched@.no_duplicates()
        &&& forall|j: int|
            0 <= j < self.fetched@.len() ==> strs(self.urls@).contains(#[trigger] self.fetched@[j])
        &&& forall|j: int|
            0 <= j < self.fetched@.len() ==> reachable_within(self.graph@, self.urls@[0]@, #[trigger] self.fetched@[j], fetch_depth(self.max_depth as nat))
        &&& forall|u: Seq<char>| #[trigger] self.graph@.contains_key(u) ==> self.fetched@.contains(u)
        &&& forall|j: int|
            0 <= j < self.emitted@.len() ==> reachable_within(
                self.graph@,
                self.urls@[0]@,
                #[trigger] self.emitted@[j]@,
                self.max_depth as nat,
            )
        &&& (self.urls@.len() > 1 || self.emitted@.len() > 0) ==> self.graph@.contains_key(self.urls@[0]@)
        &&& self.fatal ==> self.queue@.len() == 0 && self.active@.len() == 0
        &&& strs(self.emitted@).no_duplicates()
        &&& forall|j: int|
            0 <= j < self.emitted@.len() ==> self.graph@.contains_key(#[trigger] self.emitted@[j]@)
                || exists|i: int|
                0 < i < self.urls@.len() && strs(self.urls@)[i] == self.emitted@[j]@ && self.hops@[i]
                    == self.max_depth
        &&& forall|u: Seq<char>| #[trigger] self.graph@.contains_key(u) ==> strs(self.emitted@).contains(u)
        &&& forall|i: int|
            0 < i < self.urls@.len() && self.hops@[i] == self.max_depth ==> strs(self.emitted@).contains(
                #[trigger] strs(self.urls@)[i],
            )
    }

    pub closed spec fn well_formed(&self) -> bool {
        &&& self.core_ok()
        &&& forall|i: int, l: Seq<char>|
            0 <= i < self.urls@.len() && self.graph@.contains_key(strs(self.urls@)[i]) && self.hops@[i]
                < self.max_depth && #[trigger] self.graph@[strs(self.urls@)[i]].contains(l) && is_absolute(l)
                ==> strs(self.urls@).contains(l)
    }

    /// The links of the page `known()[id]` that the crawl takes up once the page
    /// text `html` has come: none when the page lies at the depth limit.
    pub open spec fn taken_links(&self, id: int, html: Seq<char>) -> Seq<Seq<char>> {
        if self.hop(id) < self.depth_limit() {
            fresh_links(self.known(), links_of(html, self.known()[id]))
        } else {
            Seq::empty()
        }
    }

    /// The settings and the record that no transition of a run changes.
    pub open spec fn same_run(&self, o: &Crawler) -> bool {
        &&& self.seed() == o.seed()
        &&& self.depth_limit() == o.depth_limit()
        &&& self.concurrency() == o.concurrency()
    }

    /// Hands out the next page to fetch, first in line first, when one waits and
    /// fewer than the concurrency limit are being fetched.
    pub fn next_task(&mut self) -> (r: Option<Task>)
        requires
            old(self).well_formed(),
        ensures
            final(self).well_formed(),
            final(self).same_run(old(self)),
            old(self).pending().len() == 0 || old(self).in_flight().len() >= old(self).concurrency()
                ==> r is None && *final(self) == *old(self),
            old(self).pending().len() > 0 && old(self).in_flight().len() < old(self).concurrency()
                ==> (r matches Some(t) && {
                let i = old(self).pending()[0];
                &&& t.id == i
                &&& t.url@ == old(self).known()[i as int]
                &&& final(self).pending() == old(self).pending().drop_first()
                &&& final(self).in_flight() == old(self).in_flight().push(i)
                &&& final(self).fetched_urls() == old(self).fetched_urls().push(t.url@)
                &&& final(self).known() == old(self).known()
                &&& (forall|j: int| 0 <= j < old(self).known().len() ==> final(self).hop(j) == old(self).hop(j))
                &&& final(self).emitted_urls() == old(self).emitted_urls()
                &&& final(self).failed() == old(self).failed()
                &&& final(self).link_graph() == old(self).link_graph()
                &&& final(self).stopped() == old(self).stopped()
            }),
    {
        if self.queue.len() == 0 || self.active.len() >= self.limit {
            return None;
        }
        let i = self.queue.remove(0);
        let url = self.urls[i].clone();
        self.active.push(i);
        proof {
            let g = self.graph@;
            let s = self.seed();
            let d = self.max_depth as nat;
            assert(self.known()[i as int] == url@);
            if i == 0 {
                assert(url@ == s);
            } else {
                lemma_reachable_more_steps(g, s, url@, self.hops@[i as int] as nat, fetch_depth(d));
            }
            assert(!g.contains_key(url@));
            self.fetched = Ghost(self.fetched@.push(url@));
            assert(self.known().contains(url@));
            assert forall|j: int| 0 <= j < self.queue@.len() implies !self.fetched@.contains(
                self.known()[#[trigger] self.queue@[j] as int],
            ) by {
                assert(self.queue@[j] == old(self).queue@[j + 1]);
                assert(self.queue@[j] != i);
            }
            assert forall|j: int| 0 <= j < self.active@.len() implies self.fetched@.contains(
                self.known()[#[trigger] self.active@[j] as int],
            ) by {
                if j < old(self).active@.len() {
                    let w = choose|w: int|
                        0 <= w < old(self).fetched@.len() && old(self).fetched@[w]
                            == self.known()[self.active@[j] as int];
                    assert(self.fetched@[w] == old(self).fetched@[w]);
                } else {
                    assert(self.fetched@[self.fetched@.len() - 1] == url@);
                }
            }
            assert forall|u: Seq<char>| #[trigger] g.contains_key(u) implies self.fetched@.contains(u) by {
                let w = choose|w: int| 0 <= w < old(self).fetched@.len() && old(self).fetched@[w] == u;
                assert(self.fetched@[w] == u);
            }
            assert forall|j: int| 0 < j < self.urls@.len() && self.hops@[j] == self.max_depth implies strs(
                self.emitted@,
            ).contains(#[trigger] strs(self.urls@)[j]) by {
                assert(strs(old(self).urls@)[j] == strs(self.urls@)[j]);
            }
            assert(self.well_formed());
        }
        Some(Task { id: i, url })
    }

    /// Takes in the outcome of the fetch handed out under `id`. A page that came
    /// is recorded with its links; each absolute link not yet known is taken up one
    /// link deeper, queued for fetching below the depth limit and reported
    /// unfetched at it; then the page itself is reported. A failed fetch is
    /// recorded, and ends the crawl when the page is the seed. An `id` that is not
    /// being fetched changes nothing.
    #[verifier::spinoff_prover]
    #[verifier::rlimit(60)]
    pub fn complete(&mut self, id: usize, page: Result<String, FetchError>) -> (r: Result<(), CrawlError>)
        requires
            old(self).well_formed(),
        ensures
            final(self).well_formed(),
            final(self).same_run(old(self)),
            final(self).fetched_urls() == old(self).fetched_urls(),
            !old(self).in_flight().contains(id) ==> r is Ok && *final(self) == *old(self),
            old(self).in_flight().contains(id) ==> ({
                let o = *old(self);
                let f = *final(self);
                let u = o.known()[id as int];
                let rest = o.in_flight().remove(o.in_flight().index_of(id));
                match page {
                    Err(e) => if id == 0 {
                        &&& (r matches Err(CrawlError::SeedFailed { url, error }) && url@ == u && error == e)
                        &&& f.stopped()
                        &&& f.pending().len() == 0
                        &&& f.in_flight().len() == 0
                        &&& f.emitted_urls().len() == 0
                        &&& f.known() == o.known()
                        &&& f.failed() == o.failed()
                        &&& f.link_graph() == o.link_graph()
                    } else {
                        &&& r is Ok
                        &&& f.failed() == o.failed().push((u, e))
                        &&& (forall|j: int| 0 <= j < o.known().len() ==> f.hop(j) == o.hop(j))
                        &&& f.in_flight() == rest
                        &&& f.pending() == o.pending()
                        &&& f.known() == o.known()
                        &&& f.emitted_urls() == o.emitted_urls()
                        &&& f.link_graph() == o.link_graph()
                        &&& f.stopped() == o.stopped()
                    },
                    Ok(html) => {
                        let taken = o.taken_links(id as int, html@);
                        let h = o.hop(id as int) + 1;
                        &&& r is Ok
                        &&& f.link_graph() == o.link_graph().insert(u, links_of(html@, u))
                        &&& f.known() == o.known() + taken
                        &&& (forall|j: int| 0 <= j < o.known().len() ==> f.hop(j) == o.hop(j))
                        &&& (forall|j: int| o.known().len() <= j < f.known().len() ==> f.hop(j) == h)
                        &&& f.in_flight() == rest
                        &&& (h < o.depth_limit() ==> forall|m: int|
                            0 <= m < taken.len() ==> #[trigger] f.pending()[o.pending().len() + m] as int
                                == o.known().len() + m)
                        &&& f.pending() == (if h < o.depth_limit() {
                            o.pending() + index_range(o.known().len() as int, f.known().len() as int)
                        } else {
                            o.pending()
                        })
                        &&& f.emitted_urls() == (if h < o.depth_limit() {
                            o.emitted_urls().push(u)
                        } else {
                            o.emitted_urls().push(u) + taken
                        })
                        &&& f.failed() == o.failed()
                        &&& f.stopped() == o.stopped()
                    },
                }
            }),
    {
        let pos = find_index(&self.active, id);
        let k = match pos {
            None => {
                return Ok(());
            },
            Some(k) => k,
        };
        proof {
            assert(self.active@.contains(id));
            let w = self.active@.index_of(id);
            assert(self.active@[w] == id);
            assert(w == k as int);
        }
        self.active.remove(k);
        let url = self.urls[id].clone();
        match page {
            Err(e) => {
                if id == 0 {
                    self.queue = Vec::new();
                    self.active = Vec::new();
                    self.fatal = true;
                    proof {
                        assert(!self.graph@.contains_key(self.urls@[0]@));
                    }
                    return Err(CrawlError::SeedFailed { url, error: e });
                }
                self.failures.push(Failure { url, error: e });
                proof {
                    let kk = strs(self.urls@);
                    assert(self.urls@ == old(self).urls@);
                    assert forall|j: int| 0 <= j < self.active@.len() implies {
                        let i = #[trigger] self.active@[j];
                        &&& i < self.urls@.len()
                        &&& (i == 0 || self.hops@[i as int] < self.max_depth)
                        &&& self.fetched@.contains(kk[i as int])
                        &&& !self.graph@.contains_key(kk[i as int])
                    } by {
                        if j < k {
                            assert(self.active@[j] == old(self).active@[j]);
                        } else {
                            assert(self.active@[j] == old(self).active@[j + 1]);
                        }
                    }
                    assert forall|i: int| 0 < i < self.urls@.len() && self.hops@[i] == self.max_depth
                        implies strs(self.emitted@).contains(#[trigger] kk[i]) by {
                        assert(strs(old(self).urls@)[i] == kk[i]);
                    }
                    assert forall|i: int, l: Seq<char>|
                        0 <= i < self.urls@.len() && self.graph@.contains_key(kk[i]) && self.hops@[i]
                            < self.max_depth && #[trigger] self.graph@[kk[i]].contains(l) && is_absolute(l)
                        implies kk.contains(l) by {
                        assert(strs(old(self).urls@)[i] == kk[i]);
                    }
                    assert(self.core_ok());
                    assert(self.well_formed());
                    assert(self.failed() =~= old(self).failed().push((old(self).known()[id as int], e)));
                }
                Ok(())
            },
            Ok(html) => {
                let links = extract_urls(html.as_str(), url.as_str());
                let ghost g0 = self.graph@;
                let ghost seed = self.urls@[0]@;
                let ghost d = self.max_depth as nat;
                let ghost lv = strs(links@);
                let ghost uv = url@;
                let ghost e_old = strs(self.emitted@);
                let h = self.hops[id];
                proof {
                    assert(strs(self.urls@)[id as int] == uv);
                    assert(old(self).active@[k as int] == id);
                    assert(id == 0 || h < self.max_depth);
                    assert(!g0.contains_key(uv));
                    self.graph = Ghost(g0.insert(uv, lv));
                }
                self.emitted.push(url);
                proof {
                    let g = self.graph@;
                    let kk = strs(self.urls@);
                    assert(g0.submap_of(g));
                    assert(strs(self.emitted@) =~= e_old.push(uv));
                    lemma_push_contains(e_old, uv);
                    assert forall|i: int| 0 <= i < self.urls@.len() implies reachable_within(
                        g, seed, #[trigger] kk[i], self.hops@[i] as nat)
                    by {
                        lemma_reachable_in_larger_graph(g0, g, seed, kk[i], self.hops@[i] as nat);
                    }
                    assert forall|j: int| 0 <= j < self.fetched@.len() implies reachable_within(
                        g, seed, #[trigger] self.fetched@[j], fetch_depth(d))
                    by {
                        lemma_reachable_in_larger_graph(g0, g, seed, self.fetched@[j], fetch_depth(d));
                    }
                    lemma_reachable_more_steps(g0, seed, uv, h as nat, d);
                    lemma_reachable_in_larger_graph(g0, g, seed, uv, d);
                    assert forall|j: int| 0 <= j < self.emitted@.len() implies reachable_within(
                        g, seed, #[trigger] self.emitted@[j]@, d)
                    by {
                        if j < e_old.len() {
                            assert(self.emitted@[j]@ == e_old[j]);
                            lemma_reachable_in_larger_graph(g0, g, seed, self.emitted@[j]@, d);
                        }
                    }
                    assert forall|j: int| 0 <= j < self.active@.len() implies !g.contains_key(
                        kk[#[trigger] self.active@[j] as int])
                    by {
                        assert(self.active@[j] != id);
                        assert(kk[self.active@[j] as int] != uv);
                    }
                    if id != 0 {
                        assert(self.urls@.len() > 1);
                    }
                    assert(!e_old.contains(uv)) by {
                        if e_old.contains(uv) {
                            let j = choose|j: int| 0 <= j < e_old.len() && e_old[j] == uv;
                            assert(old(self).emitted@[j]@ == uv);
                            let i = choose|i: int|
                                0 < i < self.urls@.len() && kk[i] == uv && self.hops@[i] == self.max_depth;
                            assert(kk[i] == kk[id as int]);
                        }
                    }
                    assert forall|j: int| 0 <= j < self.emitted@.len() implies g.contains_key(
                        #[trigger] self.emitted@[j]@)
                        || exists|i: int|
                        0 < i < self.urls@.len() && kk[i] == self.emitted@[j]@ && self.hops@[i]
                            == self.max_depth by {
                        if j < e_old.len() {
                            assert(self.emitted@[j]@ == old(self).emitted@[j]@);
                        }
                    }
                    assert forall|u: Seq<char>| #[trigger] g.contains_key(u) implies strs(self.emitted@).contains(u) by {
                        if u != uv {
                            assert(g0.contains_key(u));
                        }
                    }
                    assert forall|i: int| 0 < i < self.urls@.len() && self.hops@[i] == self.max_depth
                        implies strs(self.emitted@).contains(#[trigger] kk[i]) by {
                        assert(e_old.contains(kk[i]));
                    }
                    assert(self.core_ok());
                    assert forall|i: int, l: Seq<char>|
                        0 <= i < self.urls@.len() && kk[i] != uv && g.contains_key(kk[i]) && self.hops@[i]
                            < self.max_depth && #[trigger] g[kk[i]].contains(l) && is_absolute(l)
                        implies kk.contains(l) by {
                        assert(g0.contains_key(kk[i]) && g0[kk[i]] == g[kk[i]]);
                    }
                }
                let ghost k0 = strs(self.urls@);
                let ghost hops0 = self.hops@;
                let ghost q0 = self.queue@;
                let ghost e0 = strs(self.emitted@);
                if h < self.max_depth {
                    let h1 = h + 1;
                    let mut j: usize = 0;
                    while j < links.len()
                        invariant
                            self.core_ok(),
                            forall|i: int, l: Seq<char>|
                                0 <= i < self.urls@.len() && strs(self.urls@)[i] != uv && self.graph@.contains_key(
                                    strs(self.urls@)[i],
                                ) && self.hops@[i] < self.max_depth
                                    && #[trigger] self.graph@[strs(self.urls@)[i]].contains(l) && is_absolute(l)
                                    ==> strs(self.urls@).contains(l),
                            forall|m: int|
                                0 <= m < j && is_absolute(lv[m]) ==> strs(self.urls@).contains(#[trigger] lv[m]),
                            j <= links.len(),
                            lv == strs(links@),
                            uv == url@,
                            self.graph@.contains_key(uv),
                            self.graph@[uv] == lv,
                            reachable_within(self.graph@, seed, uv, h as nat),
                            h < self.max_depth,
                            h1 == h + 1,
                            seed == self.urls@[0]@,
                            d == self.max_depth as nat,
                            self.graph@ == g0.insert(uv, lv),
                            self.fetched@ == old(self).fetched@,
                            self.active@ == old(self).active@.remove(k as int),
                            self.failures@ == old(self).failures@,
                            self.fatal == old(self).fatal,
                            !self.fatal,
                            self.limit == old(self).limit,
                            self.max_depth == old(self).max_depth,
                            strs(self.urls@) == k0 + fresh_links(k0, lv.subrange(0, j as int)),
                            self.hops@.len() == self.urls@.len(),
                            forall|i: int| 0 <= i < k0.len() ==> self.hops@[i] == hops0[i],
                            forall|i: int| k0.len() <= i < self.hops@.len() ==> self.hops@[i] == h1,
                            h1 < self.max_depth ==> self.queue@ == q0 + index_range(k0.len() as int, self.urls@.len() as int),
                            h1 >= self.max_depth ==> self.queue@ == q0,
                            h1 < self.max_depth ==> forall|m: int|
                                0 <= m < self.urls@.len() - k0.len() ==> #[trigger] self.queue@[q0.len() + m] as int
                                    == k0.len() + m,
                            h1 < self.max_depth ==> strs(self.emitted@) == e0,
                            h1 >= self.max_depth ==> strs(self.emitted@) == e0 + fresh_links(k0, lv.subrange(0, j as int)),
                        decreases links.len() - j,
                    {
                        let ghost pre = *self;
                        let ghost fr = fresh_links(k0, lv.subrange(0, j as int));
                        proof {
                            assert(lv.subrange(0, j + 1).drop_last() == lv.subrange(0, j as int));
                            assert(lv.subrange(0, j + 1).last() == lv[j as int]);
                            lemma_concat_contains(k0, fr, lv[j as int]);
                            assert(lv[j as int] == links@[j as int]@);
                        }
                        if is_absolute_url(links[j].as_str()) && !contains_url(&self.urls, &links[j]) {
                            let idx = self.urls.len();
                            let l = links[j].clone();
                            self.urls.push(l);
                            self.hops.push(h1);
                            if h1 < self.max_depth {
                                self.queue.push(idx);
                            } else {
                                let l2 = links[j].clone();
                                self.emitted.push(l2);
                            }
                            proof {
                                let x = lv[j as int];
                                let kp = strs(pre.urls@);
                                let kk = strs(self.urls@);
                                let g = self.graph@;
                                assert(kk =~= kp.push(x));
                                lemma_push_contains(kp, x);
                                assert(lv.contains(x));
                                lemma_reachable_link(g, seed, uv, x, h as nat);
                                assert(!self.fetched@.contains(x)) by {
                                    if self.fetched@.contains(x) {
                                        let w = choose|w: int| 0 <= w < self.fetched@.len() && self.fetched@[w] == x;
                                        assert(kp.contains(pre.fetched@[w]));
                                    }
                                }
                                assert(!g.contains_key(x));
                                assert forall|i: int| 0 <= i < pre.urls@.len() implies kk[i] == kp[i] by {}
                                assert forall|w: int| 0 <= w < self.fetched@.len() implies kk.contains(#[trigger] self.fetched@[w]) by {
                                    assert(kp.contains(pre.fetched@[w]));
                                }
                                assert forall|i: int| 0 <= i < self.urls@.len() implies reachable_within(
                                    g, seed, #[trigger] kk[i], self.hops@[i] as nat) by {
                                    if i < pre.urls@.len() {
                                        assert(kk[i] == kp[i]);
                                    }
                                }
                                assert forall|q: int| 0 <= q < self.queue@.len() implies !self.fetched@.contains(
                                    kk[#[trigger] self.queue@[q] as int]) by {
                                    if q < pre.queue@.len() {
                                        assert(self.queue@[q] == pre.queue@[q]);
                                        assert(kk[self.queue@[q] as int] == kp[pre.queue@[q] as int]);
                                    }
                                }
                                assert forall|q: int| 0 <= q < self.active@.len() implies self.fetched@.contains(
                                    kk[#[trigger] self.active@[q] as int]) by {
                                    assert(kk[self.active@[q] as int] == kp[pre.active@[q] as int]);
                                }
                                assert forall|q: int| 0 <= q < self.active@.len() implies !g.contains_key(
                                    kk[#[trigger] self.active@[q] as int]) by {
                                    assert(kk[self.active@[q] as int] == kp[pre.active@[q] as int]);
                                }
                                let ep = strs(pre.emitted@);
                                lemma_push_contains(ep, x);
                                if h1 >= self.max_depth {
                                    assert(strs(self.emitted@) =~= ep.push(x));
                                    assert(!ep.contains(x)) by {
                                        if ep.contains(x) {
                                            let w = choose|w: int| 0 <= w < ep.len() && ep[w] == x;
                                            assert(pre.emitted@[w]@ == x);
                                            if g.contains_key(x) {
                                            } else {
                                                let i = choose|i: int|
                                                    0 < i < pre.urls@.len() && kp[i] == x && pre.hops@[i] == self.max_depth;
                                                assert(kp.contains(x));
                                            }
                                        }
                                    }
                                } else {
                                    assert(self.queue@ =~= q0 + index_range(k0.len() as int, self.urls@.len() as int));
                                    assert(strs(self.emitted@) =~= ep);
                                    assert forall|m: int| 0 <= m < self.urls@.len() - k0.len() implies
                                        #[trigger] self.queue@[q0.len() + m] as int == k0.len() + m by {
                                        if m < pre.urls@.len() - k0.len() {
                                            assert(self.queue@[q0.len() + m] == pre.queue@[q0.len() + m]);
                                        } else {
                                            assert(pre.queue@.len() == q0.len() + (pre.urls@.len() - k0.len()));
                                        }
                                    }
                                }
                                assert forall|w: int| 0 <= w < self.emitted@.len() implies g.contains_key(
                                    #[trigger] self.emitted@[w]@)
                                    || exists|i: int|
                                    0 < i < self.urls@.len() && kk[i] == self.emitted@[w]@ && self.hops@[i]
                                        == self.max_depth by {
                                    if w < pre.emitted@.len() {
                                        assert(self.emitted@[w] == pre.emitted@[w]);
                                        if !g.contains_key(self.emitted@[w]@) {
                                            let i = choose|i: int|
                                                0 < i < pre.urls@.len() && kp[i] == pre.emitted@[w]@ && pre.hops@[i] == self.max_depth;
                                            assert(kk[i] == kp[i]);
                                        }
                                    } else {
                                        assert(kk[idx as int] == x);
                                    }
                                }
                                assert forall|u: Seq<char>| #[trigger] g.contains_key(u) implies strs(self.emitted@).contains(u) by {
                                    assert(ep.contains(u));
                                }
                                assert forall|i: int| 0 < i < self.urls@.len() && self.hops@[i] == self.max_depth
                                    implies strs(self.emitted@).contains(#[trigger] kk[i]) by {
                                    if i < pre.urls@.len() {
                                        assert(kk[i] == kp[i]);
                                        assert(ep.contains(kp[i]));
                                    } else {
                                        assert(strs(self.emitted@)[strs(self.emitted@).len() - 1] == x);
                                    }
                                }
                                assert(self.core_ok());
                                assert forall|i: int, l: Seq<char>|
                                    0 <= i < self.urls@.len() && kk[i] != uv && g.contains_key(kk[i]) && self.hops@[i]
                                        < self.max_depth && #[trigger] g[kk[i]].contains(l) && is_absolute(l)
                                    implies kk.contains(l) by {
                                    if i < pre.urls@.len() {
                                        assert(kk[i] == kp[i]);
                                        assert(kp.contains(l));
                                    }
                                }
                                assert forall|m: int| 0 <= m < j + 1 && is_absolute(lv[m]) implies kk.contains(#[trigger] lv[m]) by {
                                    if m < j {
                                        assert(kp.contains(lv[m]));
                                    } else {
                                        assert(kk[idx as int] == x);
                                    }
                                }
                            }
                        } else {
                            proof {
                                let x = lv[j as int];
                                assert(fresh_links(k0, lv.subrange(0, j + 1)) == fr);
                                if is_absolute(x) {
                                    assert(strs(self.urls@).contains(x));
                                }
                            }
                        }
                        j += 1;
                    }
                    proof {
                        assert(lv.subrange(0, links@.len() as int) == lv);
                    }
                } else {
                    proof {
                        assert(strs(self.urls@) =~= k0 + Seq::<Seq<char>>::empty());
                        assert(strs(self.emitted@) =~= e0 + Seq::<Seq<char>>::empty());
                        assert(self.queue@ =~= q0 + index_range(k0.len() as int, self.urls@.len() as int));
                    }
                }
                proof {
                    let kk = strs(self.urls@);
                    let g = self.graph@;
                    assert(kk[id as int] == uv);
                    assert forall|i: int, l: Seq<char>|
                        0 <= i < self.urls@.len() && g.contains_key(kk[i]) && self.hops@[i]
                            < self.max_depth && #[trigger] g[kk[i]].contains(l) && is_absolute(l)
                        implies kk.contains(l) by {
                        if kk[i] == uv {
                            assert(i == id as int);
                            let m = choose|m: int| 0 <= m < lv.len() && lv[m] == l;
                            assert(kk.contains(lv[m]));
                        }
                    }
                    assert(self.well_formed());
                }
                Ok(())
            },
        }
    }

    /// Stops the crawl from the outside: nothing waiting is fetched any more and
    /// the fetches under way are given up. What was reported stays.
    pub fn cancel(&mut self)
        requires
            old(self).well_formed(),
        ensures
            final(self).well_formed(),
            final(self).same_run(old(self)),
            final(self).pending().len() == 0,
            final(self).in_flight().len() == 0,
            final(self).known() == old(self).known(),
            final(self).emitted_urls() == old(self).emitted_urls(),
            final(self).failed() == old(self).failed(),
            final(self).fetched_urls() == old(self).fetched_urls(),
            final(self).link_graph() == old(self).link_graph(),
            final(self).stopped() == old(self).stopped(),
    {
        self.queue = Vec::new();
        self.active = Vec::new();
        proof {
            let kk = strs(self.urls@);
            assert forall|i: int| 0 < i < self.urls@.len() && self.hops@[i] == self.max_depth
                implies strs(self.emitted@).contains(#[trigger] kk[i]) by {
                assert(strs(old(self).urls@)[i] == kk[i]);
            }
            assert forall|i: int, l: Seq<char>|
                0 <= i < self.urls@.len() && self.graph@.contains_key(kk[i]) && self.hops@[i]
                    < self.max_depth && #[trigger] self.graph@[kk[i]].contains(l) && is_absolute(l)
                implies kk.contains(l) by {
                assert(strs(old(self).urls@)[i] == kk[i]);
            }
        }
    }

    /// The crawl is over when nothing waits and no fetch is under way.
    pub fn is_finished(&self) -> (r: bool)
        ensures
            r == (self.pending().len() == 0 && self.in_flight().len() == 0),
    {
        self.queue.len() == 0 && self.active.len() == 0
    }

    /// How many fetches are under way.
    pub fn in_flight_count(&self) -> (r: usize)
        ensures
            r == self.in_flight().len(),
    {
        self.active.len()
    }

    /// The URLs reported as visited so far.
    pub fn results(&self) -> (r: &Vec<String>)
        ensures
            strs(r@) == self.emitted_urls(),
    {
        &self.emitted
    }

    /// The fetches that failed so far, with their errors.
    pub fn failures(&self) -> (r: &Vec<Failure>)
        ensures
            r@.map_values(|f: Failure| (f.url@, f.error)) == self.failed(),
    {
        &self.failures
    }

    /// Depth bound: every URL reported lies at most `depth_limit()` links from the
    /// seed, and every URL fetched at most one link less (the seed is always
    /// fetched), along the links found on the pages fetched.
    pub proof fn lemma_depth_bound(&self)
        requires
            self.well_formed(),
        ensures
            forall|j: int|
                0 <= j < self.emitted_urls().len() ==> reachable_within(
                    self.link_graph(),
                    self.seed(),
                    #[trigger] self.emitted_urls()[j],
                    self.depth_limit(),
                ),
            forall|j: int|
                0 <= j < self.fetched_urls().len() ==> reachable_within(
                    self.link_graph(),
                    self.seed(),
                    #[trigger] self.fetched_urls()[j],
                    fetch_depth(self.depth_limit()),
                ),
    {
        assert forall|j: int| 0 <= j < self.emitted_urls().len() implies reachable_within(
            self.link_graph(),
            self.seed(),
            #[trigger] self.emitted_urls()[j],
            self.depth_limit(),
        ) by {
            assert(self.emitted_urls()[j] == self.emitted@[j]@);
        }
    }

    /// Dedup: no URL is handed out for fetching twice in one run, and no URL is
    /// taken up twice, whatever links the pages hold.
    pub proof fn lemma_fetched_once(&self)
        requires
            self.well_formed(),
        ensures
            self.fetched_urls().no_duplicates(),
            self.known().no_duplicates(),
            forall|j: int|
                0 <= j < self.fetched_urls().len() ==> self.known().contains(
                    #[trigger] self.fetched_urls()[j],
                ),
    {
    }

    /// Every URL taken up is the seed, or a link found on a page fetched.
    pub proof fn lemma_known_found(&self)
        requires
            self.well_formed(),
        ensures
            self.known().len() >= 1,
            self.known()[0] == self.seed(),
            forall|i: int|
                0 <= i < self.known().len() ==> #[trigger] self.known()[i] == self.seed() || exists|v: Seq<char>|
                    #[trigger] self.link_graph().contains_key(v) && self.link_graph()[v].contains(self.known()[i]),
    {
        assert forall|i: int| 0 <= i < self.known().len() implies #[trigger] self.known()[i] == self.seed()
            || exists|v: Seq<char>|
            #[trigger] self.link_graph().contains_key(v) && self.link_graph()[v].contains(self.known()[i]) by {
            let u = strs(self.urls@)[i];
            let g = self.graph@;
            let n = self.hops@[i] as nat;
            assert(reachable_within(g, self.urls@[0]@, u, n));
            if u != self.urls@[0]@ {
                let v = choose|v: Seq<char>|
                    #[trigger] g.contains_key(v) && g[v].contains(u) && reachable_within(g, self.urls@[0]@, v, (n - 1) as nat);
                assert(self.link_graph().contains_key(v) && self.link_graph()[v].contains(self.known()[i]));
            }
        }
    }

    /// What is reported: each URL at most once, and a URL is reported exactly
    /// when its page came back, or when it was taken up at the depth limit (and so
    /// never fetched). Every absolute link of a page that came back below the depth
    /// limit has been taken up.
    pub proof fn lemma_reported(&self)
        requires
            self.well_formed(),
        ensures
            self.emitted_urls().no_duplicates(),
            forall|u: Seq<char>|
                #[trigger] self.emitted_urls().contains(u) <==> (self.link_graph().contains_key(u) || exists|i: int|
                    0 < i < self.known().len() && self.known()[i] == u && self.hop(i) == self.depth_limit()),
            forall|i: int, l: Seq<char>|
                0 <= i < self.known().len() && self.link_graph().contains_key(self.known()[i]) && self.hop(i)
                    < self.depth_limit() && #[trigger] self.link_graph()[self.known()[i]].contains(l)
                    && is_absolute(l) ==> self.known().contains(l),
    {
        assert forall|u: Seq<char>|
            #[trigger] self.emitted_urls().contains(u) <==> (self.link_graph().contains_key(u) || exists|i: int|
                0 < i < self.known().len() && self.known()[i] == u && self.hop(i) == self.depth_limit()) by {
            if self.emitted_urls().contains(u) {
                let j = choose|j: int| 0 <= j < self.emitted_urls().len() && self.emitted_urls()[j] == u;
                assert(self.emitted@[j]@ == u);
                if !self.graph@.contains_key(u) {
                    let i = choose|i: int|
                        0 < i < self.urls@.len() && strs(self.urls@)[i] == self.emitted@[j]@ && self.hops@[i]
                            == self.max_depth;
                    assert(self.known()[i] == u && self.hop(i) == self.depth_limit());
                }
            }
            if !self.link_graph().contains_key(u) && exists|i: int|
                0 < i < self.known().len() && self.known()[i] == u && self.hop(i) == self.depth_limit() {
                let i = choose|i: int|
                    0 < i < self.known().len() && self.known()[i] == u && self.hop(i) == self.depth_limit();
                assert(strs(self.emitted@).contains(strs(self.urls@)[i]));
            }
        }
    }

    /// Concurrency bound: never more fetches under way than the limit.
    pub proof fn lemma_concurrency_bound(&self)
        requires
            self.well_formed(),
        ensures
            self.in_flight().len() <= self.concurrency(),
            self.concurrency() >= 1,
            self.in_flight().no_duplicates(),
            forall|j: int| 0 <= j < self.in_flight().len() ==> #[trigger] self.in_flight()[j] < self.known().len(),
            forall|j: int| 0 <= j < self.pending().len() ==> #[trigger] self.pending()[j] < self.known().len(),
    {
    }

    /// Starts a crawl from `seed` that follows links `max_depth` deep with at most
    /// `limit` fetches at a time. The seed is fetched first.
    pub fn new(seed: &str, max_depth: u64, limit: usize) -> (r: Result<Crawler, CrawlError>)
        ensures
            limit == 0 ==> r matches Err(CrawlError::ZeroConcurrency),
            limit > 0 && !is_absolute(seed@) ==> r matches Err(CrawlError::SeedNotAbsolute),
            limit > 0 && is_absolute(seed@) ==> (r matches Ok(c) && {
                &&& c.well_formed()
                &&& c.seed() == seed@
                &&& c.known() == seq![seed@]
                &&& c.pending() == seq![0usize]
                &&& c.in_flight().len() == 0
                &&& c.emitted_urls().len() == 0
                &&& c.failed().len() == 0
                &&& c.fetched_urls().len() == 0
                &&& c.link_graph() == Map::<Seq<char>, Seq<Seq<char>>>::empty()
                &&& c.depth_limit() == max_depth
                &&& c.concurrency() == limit
                &&& !c.stopped()
            }),
    {
        if limit == 0 {
            return Err(CrawlError::ZeroConcurrency);
        }
        if !is_absolute_url(seed) {
            return Err(CrawlError::SeedNotAbsolute);
        }
        let mut urls: Vec<String> = Vec::new();
        urls.push(String::from_str(seed));
        let mut hops: Vec<u64> = Vec::new();
        hops.push(0);
        let mut queue: Vec<usize> = Vec::new();
        queue.push(0);
        let c = Crawler {
            urls,
            hops,
            max_depth,
            limit,
            queue,
            active: Vec::new(),
            emitted: Vec::new(),
            failures: Vec::new(),
            fatal: false,
            graph: Ghost(Map::empty()),
            fetched: Ghost(Seq::empty()),
        };
        proof {
            assert(c.known() =~= seq![seed@]);
        }
        Ok(c)
    }
}

} // verus!
