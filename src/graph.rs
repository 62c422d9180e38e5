use vstd::prelude::*;

verus! {

/// `u` can be reached from `s` by following at most `n` links of `g`, where `g`
/// maps each page to the links found on it.
pub open spec fn reachable_within(
    g: Map<Seq<char>, Seq<Seq<char>>>,
    s: Seq<char>,
    u: Seq<char>,
    n: nat,
) -> bool
    decreases n,
{
    u == s || (n > 0 && exists|v: Seq<char>|
        #[trigger] g.contains_key(v) && g[v].contains(u) && reachable_within(g, s, v, (n - 1) as nat))
}

/// Adding pages to a link graph keeps what was reachable reachable.
pub proof fn lemma_reachable_in_larger_graph(
    g: Map<Seq<char>, Seq<Seq<char>>>,
    h: Map<Seq<char>, Seq<Seq<char>>>,
    s: Seq<char>,
    u: Seq<char>,
    n: nat,
)
    requires
        g.submap_of(h),
        reachable_within(g, s, u, n),
    ensures
        reachable_within(h, s, u, n),
    decreases n,
{
    if u != s {
        let v = choose|v: Seq<char>|
            #[trigger] g.contains_key(v) && g[v].contains(u) && reachable_within(g, s, v, (n - 1) as nat);
        lemma_reachable_in_larger_graph(g, h, s, v, (n - 1) as nat);
        assert(h.contains_key(v) && h[v].contains(u));
    }
}

/// What can be reached in `n` steps can be reached in `m >= n` steps.
pub proof fn lemma_reachable_more_steps(
    g: Map<Seq<char>, Seq<Seq<char>>>,
    s: Seq<char>,
    u: Seq<char>,
    n: nat,
    m: nat,
)
    requires
        reachable_within(g, s, u, n),
        n <= m,
    ensures
        reachable_within(g, s, u, m),
    decreases n,
{
    if u != s {
        let v = choose|v: Seq<char>|
            #[trigger] g.contains_key(v) && g[v].contains(u) && reachable_within(g, s, v, (n - 1) as nat);
        lemma_reachable_more_steps(g, s, v, (n - 1) as nat, (m - 1) as nat);
        assert(g.contains_key(v) && g[v].contains(u) && reachable_within(g, s, v, (m - 1) as nat));
    }
}

/// A link found on a page that is reachable in `n` steps is reachable in `n + 1`.
pub proof fn lemma_reachable_link(
    g: Map<Seq<char>, Seq<Seq<char>>>,
    s: Seq<char>,
    v: Seq<char>,
    u: Seq<char>,
    n: nat,
)
    requires
        reachable_within(g, s, v, n),
        g.contains_key(v),
        g[v].contains(u),
    ensures
        reachable_within(g, s, u, n + 1),
{
    assert(g.contains_key(v) && g[v].contains(u) && reachable_within(g, s, v, ((n + 1) - 1) as nat));
}

} // verus!
