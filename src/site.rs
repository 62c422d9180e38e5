use vstd::prelude::*;
use crate::crawl::{lemma_concat_contains, lemma_push_contains_iff, CrawlError, Crawler, FetchError, Task};
use crate::links::{is_absolute, links_of};

verus! {

/// A page held in memory: the text served for `url`, or the error that fetching it gives.
pub struct Page {
    pub url: String,
    pub body: Result<String, FetchError>,
}

/// What fetching `u` from `pages` gives: the first page with that URL decides;
/// a URL that no page has cannot be connected to.
pub open spec fn served(pages: Seq<Page>, u: Seq<char>) -> Result<Seq<char>, FetchError>
    decreases pages.len(),
{
    if pages.len() == 0 {
        Err(FetchError::ConnectionError)
    } else if pages[0].url@ == u {
        match pages[0].body {
            Ok(h) => Ok(h@),
            Err(e) => Err(e),
        }
    } else {
        served(pages.drop_first(), u)
    }
}

/// Every link found on the pages that can be served, page by page.
pub open spec fn all_links(pages: Seq<Page>) -> Seq<Seq<char>>
    decreases pages.len(),
{
    if pages.len() == 0 {
        Seq::empty()
    } else {
        (match pages[0].body {
            Ok(h) => links_of(h@, pages[0].url@),
            Err(_) => Seq::empty(),
        }) + all_links(pages.drop_first())
    }
}

/// The links of a page that `pages` serves are among `all_links(pages)`.
pub proof fn lemma_served_links(pages: Seq<Page>, u: Seq<char>, l: Seq<char>)
    requires
        served(pages, u) is Ok,
        links_of(served(pages, u)->Ok_0, u).contains(l),
    ensures
        all_links(pages).contains(l),
    decreases pages.len(),
{
    let head = match pages[0].body {
        Ok(h) => links_of(h@, pages[0].url@),
        Err(_) => Seq::empty(),
    };
    if pages[0].url@ == u {
        lemma_concat_contains(head, all_links(pages.drop_first()), l);
    } else {
        lemma_served_links(pages.drop_first(), u, l);
        lemma_concat_contains(head, all_links(pages.drop_first()), l);
    }
}

/// A sequence without repeats whose items all stand in `c` is no longer than `c`.
proof fn lemma_distinct_within(s: Seq<Seq<char>>, c: Seq<Seq<char>>)
    requires
        s.no_duplicates(),
        forall|x: Seq<char>| s.contains(x) ==> c.contains(x),
    ensures
        s.len() <= c.len(),
{
    s.unique_seq_to_set();
    c.lemma_cardinality_of_set();
    assert(s.to_set().subset_of(c.to_set()));
    vstd::set_lib::lemma_len_subset(s.to_set(), c.to_set());
}

/// Whether `s` holds the index `i`.
pub open spec fn holds_index(s: Seq<usize>, i: int) -> bool {
    exists|z: int| 0 <= z < s.len() && s[z] as int == i
}

/// Whether some entry of `failed` is for `u`.
pub open spec fn has_failed(failed: Seq<(Seq<char>, FetchError)>, u: Seq<char>) -> bool {
    exists|f: int| 0 <= f < failed.len() && failed[f].0 == u
}

/// The ids of the tasks, in order.
pub open spec fn task_ids(b: Seq<Task>) -> Seq<usize> {
    b.map_values(|t: Task| t.id)
}

/// Fetches `url` from the pages held in memory.
pub fn fetch_page(pages: &Vec<Page>, url: &String) -> (r: Result<String, FetchError>)
    ensures
        match r {
            Ok(h) => served(pages@, url@) == Ok::<Seq<char>, FetchError>(h@),
            Err(e) => served(pages@, url@) == Err::<Seq<char>, FetchError>(e),
        },
{
    let mut i: usize = 0;
    assert(pages@.subrange(0, pages@.len() as int) == pages@);
    while i < pages.len()
        invariant
            i <= pages.len(),
            served(pages@, url@) == served(pages@.subrange(i as int, pages@.len() as int), url@),
        decreases pages.len() - i,
    {
        let ghost rest = pages@.subrange(i as int, pages@.len() as int);
        assert(rest[0] == pages@[i as int]);
        if pages[i].url == *url {
            return match &pages[i].body {
                Ok(h) => Ok(h.clone()),
                Err(e) => Err(*e),
            };
        }
        assert(rest.drop_first() == pages@.subrange(i + 1, pages@.len() as int));
        i += 1;
    }
    Err(FetchError::ConnectionError)
}

/// Runs a whole crawl against pages held in memory: hands out fetches up to the
/// concurrency limit and answers the oldest one under way whenever no more can
/// be handed out, until nothing is left. However the pages link to each other,
/// this ends. The seed is fetched; so is every URL taken up below the depth
/// limit, and a fetched page is recorded exactly when it was served. Each URL is
/// reported once: a page that came back, or a URL taken up at the depth limit.
#[verifier::spinoff_prover]
#[verifier::rlimit(60)]
pub fn crawl_site(seed: &str, max_depth: u64, limit: usize, pages: &Vec<Page>) -> (r: Result<
    Crawler,
    CrawlError,
>)
    ensures
        limit == 0 ==> r matches Err(CrawlError::ZeroConcurrency),
        limit > 0 && !is_absolute(seed@) ==> r matches Err(CrawlError::SeedNotAbsolute),
        limit > 0 && is_absolute(seed@) && served(pages@, seed@) is Err ==> (r matches Err(
            CrawlError::SeedFailed { url, error },
        ) && url@ == seed@ && error == served(pages@, seed@)->Err_0),
        limit > 0 && is_absolute(seed@) && served(pages@, seed@) is Ok ==> (r matches Ok(c) && {
            &&& c.well_formed()
            &&& c.seed() == seed@
            &&& c.depth_limit() == max_depth
            &&& c.concurrency() == limit
            &&& c.pending().len() == 0
            &&& c.in_flight().len() == 0
            &&& forall|u: Seq<char>|
                #[trigger] c.link_graph().contains_key(u) ==> served(pages@, u) is Ok
                    && c.link_graph()[u] == links_of(served(pages@, u)->Ok_0, u)
            &&& c.fetched_urls().contains(seed@)
            &&& c.fetched_urls().no_duplicates()
            &&& forall|i: int|
                0 <= i < c.known().len() && (i == 0 || c.hop(i) < max_depth) ==> c.fetched_urls().contains(
                    #[trigger] c.known()[i],
                )
            &&& forall|u: Seq<char>|
                #[trigger] c.fetched_urls().contains(u) ==> c.known().contains(u) && (c.link_graph().contains_key(u)
                    <==> served(pages@, u) is Ok)
            &&& forall|f: int|
                0 <= f < c.failed().len() ==> served(pages@, #[trigger] c.failed()[f].0) == Err::<
                    Seq<char>,
                    FetchError,
                >(c.failed()[f].1)
            &&& forall|i: int, l: Seq<char>|
                0 <= i < c.known().len() && c.link_graph().contains_key(c.known()[i]) && c.hop(i) < max_depth
                    && #[trigger] c.link_graph()[c.known()[i]].contains(l) && is_absolute(l) ==> c.known().contains(l)
            &&& c.emitted_urls().no_duplicates()
            &&& forall|u: Seq<char>|
                #[trigger] c.emitted_urls().contains(u) <==> (c.link_graph().contains_key(u) || exists|i: int|
                    0 < i < c.known().len() && c.known()[i] == u && c.hop(i) == max_depth)
        }),
{
    let mut c = match Crawler::new(seed, max_depth, limit) {
        Ok(c) => c,
        Err(e) => {
            return Err(e);
        },
    };
    let ghost cands = seq![seed@] + all_links(pages@);
    let mut batch: Vec<Task> = Vec::new();
    proof {
        assert(c.pending()[0] as int == 0);
        c.lemma_known_found();
        assert forall|x: Seq<char>| c.known().contains(x) implies cands.contains(x) by {
            assert(cands[0] == seed@);
        }
    }
    loop
        invariant
            limit > 0,
            is_absolute(seed@),
            c.well_formed(),
            c.seed() == seed@,
            c.depth_limit() == max_depth,
            c.concurrency() == limit,
            task_ids(batch@) == c.in_flight(),
            forall|j: int| 0 <= j < batch@.len() ==> #[trigger] batch@[j].url@ == c.known()[batch@[j].id as int],
            c.fetched_urls().len() == 0 ==> c.pending() == seq![0usize] && c.in_flight().len() == 0,
            c.fetched_urls().len() > 0 ==> c.fetched_urls()[0] == seed@,
            c.fetched_urls().len() > 0 && !c.in_flight().contains(0) ==> c.link_graph().contains_key(seed@),
            c.fetched_urls().len() <= cands.len(),
            cands == seq![seed@] + all_links(pages@),
            forall|x: Seq<char>| c.known().contains(x) ==> cands.contains(x),
            forall|i: int|
                0 <= i < c.known().len() && (i == 0 || c.hop(i) < max_depth) ==> c.fetched_urls().contains(
                    #[trigger] c.known()[i],
                ) || holds_index(c.pending(), i),
            forall|i: int|
                0 <= i < c.known().len() && c.fetched_urls().contains(#[trigger] c.known()[i]) ==> c.link_graph().contains_key(c.known()[i])
                    || has_failed(c.failed(), c.known()[i]) || holds_index(c.in_flight(), i),
            forall|f: int|
                0 <= f < c.failed().len() ==> served(pages@, #[trigger] c.failed()[f].0) == Err::<Seq<char>, FetchError>(c.failed()[f].1),
            forall|u: Seq<char>|
                #[trigger] c.link_graph().contains_key(u) ==> served(pages@, u) is Ok
                    && c.link_graph()[u] == links_of(served(pages@, u)->Ok_0, u),
        ensures
            c.well_formed(),
            served(pages@, seed@) is Ok,
            c.seed() == seed@,
            c.depth_limit() == max_depth,
            c.concurrency() == limit,
            c.pending().len() == 0,
            c.in_flight().len() == 0,
            c.fetched_urls().len() > 0,
            c.fetched_urls()[0] == seed@,
            forall|u: Seq<char>|
                #[trigger] c.link_graph().contains_key(u) ==> served(pages@, u) is Ok
                    && c.link_graph()[u] == links_of(served(pages@, u)->Ok_0, u),
            forall|i: int|
                0 <= i < c.known().len() && (i == 0 || c.hop(i) < max_depth) ==> c.fetched_urls().contains(
                    #[trigger] c.known()[i],
                ) || holds_index(c.pending(), i),
            forall|i: int|
                0 <= i < c.known().len() && c.fetched_urls().contains(#[trigger] c.known()[i]) ==> c.link_graph().contains_key(c.known()[i])
                    || has_failed(c.failed(), c.known()[i]) || holds_index(c.in_flight(), i),
            forall|f: int|
                0 <= f < c.failed().len() ==> served(pages@, #[trigger] c.failed()[f].0) == Err::<Seq<char>, FetchError>(c.failed()[f].1),
        decreases 2 * (cands.len() - c.fetched_urls().len()) + c.in_flight().len(),
    {
        let ghost before = c.fetched_urls().len();
        let ghost if_before = c.in_flight();
        proof {
            c.lemma_concurrency_bound();
            c.lemma_known_found();
        }
        let ghost c0 = c;
        match c.next_task() {
            Some(t) => {
                proof {
                    c.lemma_fetched_once();
                    c.lemma_known_found();
                    lemma_distinct_within(c.fetched_urls(), c.known());
                    lemma_distinct_within(c.known(), cands);
                    if before == 0 {
                        assert(t.id == 0);
                    }
                }
                let ghost b0 = batch@;
                batch.push(t);
                proof {
                    assert(task_ids(batch@) =~= task_ids(b0).push(batch@[b0.len() as int].id));
                    assert forall|j: int| 0 <= j < batch@.len() implies #[trigger] batch@[j].url@
                        == c.known()[batch@[j].id as int] by {
                        if j < b0.len() {
                            assert(batch@[j] == b0[j]);
                        }
                    }
                    if before == 0 {
                        assert(c.in_flight()[c.in_flight().len() - 1] == 0);
                    } else if if_before.contains(0) {
                        let z = choose|z: int| 0 <= z < if_before.len() && if_before[z] == 0;
                        assert(c.in_flight()[z] == 0);
                    }
                    lemma_push_contains_iff(c0.fetched_urls(), t.url@);
                    lemma_push_contains_iff(c0.in_flight(), t.id);
                    assert forall|i: int|
                        0 <= i < c.known().len() && (i == 0 || c.hop(i) < max_depth) implies c.fetched_urls().contains(
                            #[trigger] c.known()[i],
                        ) || holds_index(c.pending(), i) by {
                        if !c0.fetched_urls().contains(c.known()[i]) {
                            let z = choose|z: int| 0 <= z < c0.pending().len() && c0.pending()[z] as int == i;
                            if z == 0 {
                                assert(t.id as int == i);
                                assert(c.known()[i] == t.url@);
                            } else {
                                assert(c.pending()[z - 1] as int == i);
                            }
                        }
                    }
                    assert forall|i: int|
                        0 <= i < c.known().len() && c.fetched_urls().contains(#[trigger] c.known()[i]) implies c.link_graph().contains_key(c.known()[i])
                            || has_failed(c.failed(), c.known()[i]) || holds_index(c.in_flight(), i) by {
                        if c.known()[i] == t.url@ {
                            assert(c.known()[t.id as int] == t.url@);
                            assert(i == t.id as int);
                            assert(c.in_flight()[c.in_flight().len() - 1] == t.id);
                        } else {
                            assert(c0.fetched_urls().contains(c.known()[i]));
                            assert(c.known()[i] == c0.known()[i]);
                            if holds_index(c0.in_flight(), i) {
                                let z = choose|z: int| 0 <= z < c0.in_flight().len() && c0.in_flight()[z] as int == i;
                                assert(c.in_flight()[z] == c0.in_flight()[z]);
                            }
                        }
                    }
                }
            },
            None => {
                if batch.len() == 0 {
                    proof {
                        assert(c.in_flight().len() == 0);
                        if c.fetched_urls().len() == 0 {
                            assert(c.pending().len() == 1);
                        }
                        assert(!c.in_flight().contains(0));
                    }
                    break;
                }
                let ghost b0 = batch@;
                let t = batch.remove(0);
                proof {
                    assert(b0[0] == t);
                    assert(task_ids(b0)[0] == t.id);
                    assert(c.in_flight()[0] == t.id);
                    assert(c.in_flight().contains(t.id));
                    let w = c.in_flight().index_of(t.id);
                    assert(c.in_flight()[w] == t.id);
                    assert(w == 0);
                    c.lemma_known_found();
                    assert(t.id < c.known().len());
                    if t.id == 0 {
                        assert(t.url@ == seed@);
                    }
                }
                let ghost known0 = c.known();
                let ghost inflight0 = c.in_flight();
                let ghost c1 = c;
                let body = fetch_page(pages, &t.url);
                let ghost body_v = body;
                match c.complete(t.id, body) {
                    Ok(()) => {},
                    Err(e) => {
                        return Err(e);
                    },
                }
                proof {
                    assert(c.in_flight() == inflight0.remove(0));
                    assert(task_ids(batch@) =~= c.in_flight());
                    assert forall|j: int| 0 <= j < batch@.len() implies #[trigger] batch@[j].url@
                        == c.known()[batch@[j].id as int] by {
                        assert(batch@[j] == b0[j + 1]);
                        assert(b0[j + 1].id == inflight0[j + 1]);
                        c.lemma_concurrency_bound();
                        assert(c.in_flight()[j] == batch@[j].id);
                        assert(known0[batch@[j].id as int] == c.known()[batch@[j].id as int]);
                    }
                    c.lemma_fetched_once();
                    c.lemma_known_found();
                    assert forall|x: Seq<char>| c.known().contains(x) implies cands.contains(x) by {
                        let i = choose|i: int| 0 <= i < c.known().len() && c.known()[i] == x;
                        if x == seed@ {
                            assert(cands[0] == seed@);
                        } else {
                            let v = choose|v: Seq<char>|
                                #[trigger] c.link_graph().contains_key(v) && c.link_graph()[v].contains(c.known()[i]);
                            lemma_served_links(pages@, v, x);
                            lemma_concat_contains(seq![seed@], all_links(pages@), x);
                        }
                    }
                    c1.lemma_fetched_once();
                    assert forall|i: int|
                        0 <= i < c.known().len() && (i == 0 || c.hop(i) < max_depth) implies c.fetched_urls().contains(
                            #[trigger] c.known()[i],
                        ) || holds_index(c.pending(), i) by {
                        if i < known0.len() {
                            assert(c.known()[i] == known0[i]);
                            assert(c.hop(i) == c1.hop(i));
                            if holds_index(c1.pending(), i) {
                                let z = choose|z: int| 0 <= z < c1.pending().len() && c1.pending()[z] as int == i;
                                assert(c.pending()[z] as int == i);
                            }
                        } else {
                            let m = i - known0.len();
                            assert(c.pending()[c1.pending().len() + m] as int == known0.len() + m);
                        }
                    }
                    assert forall|i: int|
                        0 <= i < c.known().len() && c.fetched_urls().contains(#[trigger] c.known()[i]) implies c.link_graph().contains_key(c.known()[i])
                            || has_failed(c.failed(), c.known()[i]) || holds_index(c.in_flight(), i) by {
                        if i < known0.len() {
                            assert(c.known()[i] == known0[i]);
                            if has_failed(c1.failed(), known0[i]) {
                                let f = choose|f: int| 0 <= f < c1.failed().len() && c1.failed()[f].0 == known0[i];
                                assert(c.failed()[f] == c1.failed()[f]);
                            }
                            if i == t.id as int {
                                if body_v is Err {
                                    assert(c.failed()[c1.failed().len() as int].0 == known0[i]);
                                }
                            } else if holds_index(inflight0, i) {
                                let z = choose|z: int| 0 <= z < inflight0.len() && inflight0[z] as int == i;
                                assert(inflight0[0] == t.id);
                                assert(z != 0);
                                assert(c.in_flight()[z - 1] as int == i);
                            }
                        } else {
                            let w = choose|w: int| 0 <= w < c.fetched_urls().len() && c.fetched_urls()[w] == c.known()[i];
                            assert(known0.contains(c1.fetched_urls()[w]));
                            let m = choose|m: int| 0 <= m < known0.len() && known0[m] == c.known()[i];
                            assert(c.known()[m] == c.known()[i]);
                        }
                    }
                    assert forall|f: int| 0 <= f < c.failed().len() implies served(pages@, #[trigger] c.failed()[f].0)
                        == Err::<Seq<char>, FetchError>(c.failed()[f].1) by {
                        if f < c1.failed().len() {
                            assert(c.failed()[f] == c1.failed()[f]);
                        }
                    }
                    if c.fetched_urls().len() > 0 && !c.in_flight().contains(0) && t.id != 0 {
                        if inflight0.contains(0) {
                            let z = choose|z: int| 0 <= z < inflight0.len() && inflight0[z] == 0;
                            assert(z != 0);
                            assert(c.in_flight()[z - 1] == 0);
                        }
                    }
                }
            },
        }
    }
    proof {
        c.lemma_reported();
        c.lemma_fetched_once();
        assert(c.fetched_urls()[0] == seed@);
        assert forall|i: int|
            0 <= i < c.known().len() && (i == 0 || c.hop(i) < max_depth) implies c.fetched_urls().contains(
                #[trigger] c.known()[i],
            ) by {
            if holds_index(c.pending(), i) {
                let z = choose|z: int| 0 <= z < c.pending().len() && c.pending()[z] as int == i;
            }
        }
        assert forall|u: Seq<char>| #[trigger] c.fetched_urls().contains(u) implies c.known().contains(u) && (
            c.link_graph().contains_key(u) <==> served(pages@, u) is Ok) by {
            let w = choose|w: int| 0 <= w < c.fetched_urls().len() && c.fetched_urls()[w] == u;
            assert(c.known().contains(c.fetched_urls()[w]));
            let i = choose|i: int| 0 <= i < c.known().len() && c.known()[i] == u;
            if holds_index(c.in_flight(), i) {
                let z = choose|z: int| 0 <= z < c.in_flight().len() && c.in_flight()[z] as int == i;
            }
            if !c.link_graph().contains_key(u) {
                assert(has_failed(c.failed(), u));
                let f = choose|f: int| 0 <= f < c.failed().len() && c.failed()[f].0 == u;
                assert(served(pages@, c.failed()[f].0) is Err);
            }
        }
    }
    Ok(c)
}

} // verus!
