use vstd::prelude::*;

verus! {

/// The views of a sequence of strings.
pub open spec fn strs(v: Seq<String>) -> Seq<Seq<char>> {
    v.map_values(|s: String| s@)
}

pub open spec fn http_scheme() -> Seq<char> {
    seq!['h', 't', 't', 'p', ':', '/', '/']
}

pub open spec fn https_scheme() -> Seq<char> {
    seq!['h', 't', 't', 'p', 's', ':', '/', '/']
}

/// Length of the `https://` or `http://` that `u` starts with; 0 when it starts with neither.
pub open spec fn scheme_len(u: Seq<char>) -> int {
    if u.len() >= 8 && u.subrange(0, 8) == https_scheme() {
        8
    } else if u.len() >= 7 && u.subrange(0, 7) == http_scheme() {
        7
    } else {
        0
    }
}

/// The first index at or after `i` that holds a `/`, or the length of `u` if there is none.
pub open spec fn next_slash(u: Seq<char>, i: nat) -> nat
    decreases u.len() - i,
{
    if i >= u.len() {
        u.len()
    } else if u[i as int] == '/' {
        i
    } else {
        next_slash(u, i + 1)
    }
}

/// The origin of `u`: its scheme together with the non-empty run of characters
/// other than `/` that follows it. `None` when `u` has no such prefix.
pub open spec fn origin_of(u: Seq<char>) -> Option<Seq<char>> {
    let n = scheme_len(u);
    if n == 0 {
        None
    } else {
        let e = next_slash(u, n as nat);
        if e > n {
            Some(u.subrange(0, e as int))
        } else {
            None
        }
    }
}

/// A URL is absolute when it has an origin.
pub open spec fn is_absolute(u: Seq<char>) -> bool {
    origin_of(u) is Some
}

/// The base that relative references of a page at `u` are resolved against:
/// its origin, or the empty string.
pub open spec fn base_of(u: Seq<char>) -> Seq<char> {
    match origin_of(u) {
        Some(o) => o,
        None => Seq::empty(),
    }
}

/// A reference that starts with `/` is appended to the base; any other is kept as it is.
pub open spec fn resolve(href: Seq<char>, base: Seq<char>) -> Seq<char> {
    if href.len() > 0 && href[0] == '/' {
        base + href
    } else {
        href
    }
}

pub open spec fn resolve_all(hrefs: Seq<Seq<char>>, base: Seq<char>) -> Seq<Seq<char>> {
    hrefs.map_values(|h: Seq<char>| resolve(h, base))
}

/// The links that a page with text `html`, fetched from `u`, holds.
pub open spec fn links_of(html: Seq<char>, u: Seq<char>) -> Seq<Seq<char>> {
    resolve_all(anchor_hrefs_of(html), base_of(u))
}

/// The double-quoted `href` values of the anchor tags of a text (the pattern
/// `<a\s[^>]*?href="([^"]*)"`), in the order in which they occur, as the regex
/// crate finds them.
pub uninterp spec fn anchor_hrefs_of(html: Seq<char>) -> Seq<Seq<char>>;

/// Relies on `regex::Regex::captures` with the pattern `(^https?://[^/]+)`: the
/// capture is the leftmost-first match anchored at the start, that is the scheme
/// (`s?` is greedy) and the longest run of characters other than `/` after it.
#[verifier::external_body]
fn origin_capture(url: &str) -> (r: Option<String>)
    ensures
        match r {
            Some(o) => origin_of(url@) == Some(o@),
            None => origin_of(url@) is None,
        },
{
    let re = regex::Regex::new(r#"(^https?://[^/]+)"#).unwrap();
    re.captures(url).map(|c| c[1].to_string())
}

/// Relies on `regex::Regex::captures_iter` with the pattern `<a\s[^>]*?href="([^"]*)"`:
/// the first group of each successive match; the result depends on the text alone.
#[verifier::external_body]
fn anchor_hrefs(html: &str) -> (r: Vec<String>)
    ensures
        strs(r@) == anchor_hrefs_of(html@),
{
    let re = regex::Regex::new(r#"<a\s[^>]*?href="([^"]*)""#).unwrap();
    re.captures_iter(html).map(|c| c[1].to_string()).collect()
}

/// The base of `url` that relative links are resolved against: its origin
/// (scheme and authority), or the empty string when it has none.
pub fn base_url(url: &str) -> (r: String)
    ensures
        r@ == base_of(url@),
{
    match origin_capture(url) {
        Some(o) => o,
        None => String::new(),
    }
}

/// Whether `url` has an origin, that is, starts with `http://` or `https://` and a host.
pub fn is_absolute_url(url: &str) -> (r: bool)
    ensures
        r == is_absolute(url@),
{
    origin_capture(url).is_some()
}

/// Resolves one reference against `base`.
pub fn resolve_link(href: &str, base: &str) -> (r: String)
    ensures
        r@ == resolve(href@, base@),
{
    if href.unicode_len() > 0 && href.get_char(0) == '/' {
        let b = String::from_str(base);
        b.concat(href)
    } else {
        String::from_str(href)
    }
}

/// Resolves each reference of `hrefs` against `base`, keeping their order.
pub fn resolve_links(hrefs: &Vec<String>, base: &str) -> (r: Vec<String>)
    ensures
        strs(r@) == resolve_all(strs(hrefs@), base@),
{
    let mut out: Vec<String> = Vec::new();
    let mut i: usize = 0;
    while i < hrefs.len()
        invariant
            i <= hrefs.len(),
            strs(out@) == resolve_all(strs(hrefs@.subrange(0, i as int)), base@),
        decreases hrefs.len() - i,
    {
        let l = resolve_link(hrefs[i].as_str(), base);
        let ghost prev = out@;
        out.push(l);
        proof {
            assert(strs(out@) =~= strs(prev).push(resolve(hrefs@[i as int]@, base@)));
            assert(hrefs@.subrange(0, i + 1) == hrefs@.subrange(0, i as int).push(hrefs@[i as int]));
            assert(strs(out@) =~= resolve_all(strs(hrefs@.subrange(0, i + 1)), base@));
        }
        i += 1;
    }
    proof {
        assert(hrefs@.subrange(0, i as int) == hrefs@);
    }
    out
}

/// The links of a page with text `html` fetched from `url`: the double-quoted
/// `href` value of each anchor tag, in order, with those that start with `/` resolved against the
/// page's origin and all others kept unchanged.
pub fn extract_urls(html: &str, url: &str) -> (r: Vec<String>)
    ensures
        strs(r@) == links_of(html@, url@),
{
    let base = base_url(url);
    let hrefs = anchor_hrefs(html);
    resolve_links(&hrefs, base.as_str())
}

} // verus!
