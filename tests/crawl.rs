use web_crawler::{crawl_site, CrawlError, Crawler, FetchError, Page};

fn page(url: &str, body: &str) -> Page {
    Page { url: url.to_string(), body: Ok(body.to_string()) }
}

fn failing(url: &str, error: FetchError) -> Page {
    Page { url: url.to_string(), body: Err(error) }
}

fn sorted(v: &Vec<String>) -> Vec<String> {
    let mut s = v.clone();
    s.sort();
    s
}

#[test]
fn depth_one_reports_links_without_fetching_them() {
    let pages = vec![
        page("https://a.com", r#"<a href="https://a.com/p1">1</a><a href="/p2">2</a>"#),
        page("https://a.com/p1", r#"<a href="https://a.com/p3">3</a>"#),
        page("https://a.com/p2", r#"<a href="https://a.com/p4">4</a>"#),
    ];
    let c = crawl_site("https://a.com", 1, 4, &pages).unwrap();
    assert!(c.is_finished());
    assert_eq!(
        sorted(c.results()),
        vec!["https://a.com".to_string(), "https://a.com/p1".to_string(), "https://a.com/p2".to_string()]
    );
    assert!(c.failures().is_empty());
}

#[test]
fn seed_failure_is_fatal() {
    let pages = vec![failing("https://a.com", FetchError::HttpStatusError(500))];
    match crawl_site("https://a.com", 3, 2, &pages) {
        Err(CrawlError::SeedFailed { url, error }) => {
            assert_eq!(url, "https://a.com");
            assert_eq!(error, FetchError::HttpStatusError(500));
        }
        _ => panic!("expected the seed to fail"),
    }
}

#[test]
fn seed_failure_leaves_no_results() {
    let mut c = Crawler::new("https://a.com", 3, 2).unwrap();
    let t = c.next_task().unwrap();
    assert_eq!(t.url, "https://a.com");
    let r = c.complete(t.id, Err(FetchError::HttpStatusError(500)));
    assert!(matches!(r, Err(CrawlError::SeedFailed { .. })));
    assert!(c.results().is_empty());
    assert!(c.is_finished());
    assert!(c.next_task().is_none());
}

#[test]
fn cycle_is_visited_once() {
    let pages = vec![
        page("https://a.com/A", r#"<a href="/B">b</a>"#),
        page("https://a.com/B", r#"<a href="/A">a</a>"#),
    ];
    let c = crawl_site("https://a.com/A", 5, 3, &pages).unwrap();
    assert_eq!(sorted(c.results()), vec!["https://a.com/A".to_string(), "https://a.com/B".to_string()]);
}

#[test]
fn shared_link_fetched_once() {
    let pages = vec![
        page("https://s.com", r#"<a href="/x">x</a><a href="/y">y</a><a href="/x">x</a>"#),
        page("https://s.com/x", r#"<a href="/z">z</a>"#),
        page("https://s.com/y", r#"<a href="/z">z</a><a href="https://s.com">home</a>"#),
        page("https://s.com/z", ""),
    ];
    let c = crawl_site("https://s.com", 4, 2, &pages).unwrap();
    assert_eq!(
        sorted(c.results()),
        vec![
            "https://s.com".to_string(),
            "https://s.com/x".to_string(),
            "https://s.com/y".to_string(),
            "https://s.com/z".to_string(),
        ]
    );
}

#[test]
fn depth_zero_fetches_seed_only() {
    let pages = vec![page("https://a.com", r#"<a href="/p">p</a>"#)];
    let c = crawl_site("https://a.com", 0, 1, &pages).unwrap();
    assert_eq!(c.results(), &vec!["https://a.com".to_string()]);
}

#[test]
fn depth_two_fetches_first_level() {
    let pages = vec![
        page("https://a.com", r#"<a href="/p1">1</a>"#),
        page("https://a.com/p1", r#"<a href="/p2">2</a>"#),
        page("https://a.com/p2", r#"<a href="/p3">3</a>"#),
    ];
    let c = crawl_site("https://a.com", 2, 1, &pages).unwrap();
    assert_eq!(
        sorted(c.results()),
        vec!["https://a.com".to_string(), "https://a.com/p1".to_string(), "https://a.com/p2".to_string()]
    );
}

#[test]
fn non_seed_failure_is_recorded_and_crawl_goes_on() {
    let pages = vec![
        page("https://a.com", r#"<a href="/bad">b</a><a href="/good">g</a>"#),
        failing("https://a.com/bad", FetchError::Timeout),
        page("https://a.com/good", ""),
    ];
    let c = crawl_site("https://a.com", 3, 2, &pages).unwrap();
    assert_eq!(sorted(c.results()), vec!["https://a.com".to_string(), "https://a.com/good".to_string()]);
    assert_eq!(c.failures().len(), 1);
    assert_eq!(c.failures()[0].url, "https://a.com/bad");
    assert_eq!(c.failures()[0].error, FetchError::Timeout);
}

#[test]
fn missing_page_is_a_connection_error() {
    let pages = vec![page("https://a.com", r#"<a href="/gone">g</a>"#)];
    let c = crawl_site("https://a.com", 3, 2, &pages).unwrap();
    assert_eq!(c.failures().len(), 1);
    assert_eq!(c.failures()[0].error, FetchError::ConnectionError);
}

#[test]
fn relative_and_non_http_links_are_not_followed() {
    let pages = vec![page("https://a.com", r##"<a href="mailto:m@a.com">m</a><a href="rel">r</a><a href="#f">f</a>"##)];
    let c = crawl_site("https://a.com", 3, 2, &pages).unwrap();
    assert_eq!(c.results(), &vec!["https://a.com".to_string()]);
}

#[test]
fn zero_concurrency_rejected() {
    assert!(matches!(Crawler::new("https://a.com", 1, 0), Err(CrawlError::ZeroConcurrency)));
    assert!(matches!(crawl_site("https://a.com", 1, 0, &vec![]), Err(CrawlError::ZeroConcurrency)));
}

#[test]
fn relative_seed_rejected() {
    assert!(matches!(Crawler::new("/index.html", 1, 1), Err(CrawlError::SeedNotAbsolute)));
}

#[test]
fn concurrency_limit_holds_tasks_back() {
    let mut c = Crawler::new("https://a.com", 2, 2).unwrap();
    let t = c.next_task().unwrap();
    assert!(c.next_task().is_none());
    let html = r#"<a href="/1">1</a><a href="/2">2</a><a href="/3">3</a>"#.to_string();
    assert!(c.complete(t.id, Ok(html)).is_ok());
    let a = c.next_task().unwrap();
    let b = c.next_task().unwrap();
    assert_eq!(a.url, "https://a.com/1");
    assert_eq!(b.url, "https://a.com/2");
    assert_eq!(c.in_flight_count(), 2);
    assert!(c.next_task().is_none());
    assert!(c.complete(a.id, Ok(String::new())).is_ok());
    let d = c.next_task().unwrap();
    assert_eq!(d.url, "https://a.com/3");
    assert!(c.complete(b.id, Ok(String::new())).is_ok());
    assert!(c.complete(d.id, Ok(String::new())).is_ok());
    assert!(c.is_finished());
    assert_eq!(c.results().len(), 4);
}

#[test]
fn unknown_or_repeated_completion_changes_nothing() {
    let mut c = Crawler::new("https://a.com", 2, 1).unwrap();
    let t = c.next_task().unwrap();
    assert!(c.complete(t.id + 7, Ok(String::new())).is_ok());
    assert!(c.results().is_empty());
    assert!(c.complete(t.id, Ok(String::new())).is_ok());
    assert!(c.complete(t.id, Ok(String::new())).is_ok());
    assert_eq!(c.results(), &vec!["https://a.com".to_string()]);
}

#[test]
fn cancel_stops_the_crawl_and_keeps_results() {
    let mut c = Crawler::new("https://a.com", 3, 1).unwrap();
    let t = c.next_task().unwrap();
    let html = r#"<a href="/1">1</a><a href="/2">2</a>"#.to_string();
    assert!(c.complete(t.id, Ok(html)).is_ok());
    let _running = c.next_task().unwrap();
    c.cancel();
    assert!(c.is_finished());
    assert!(c.next_task().is_none());
    assert_eq!(c.results(), &vec!["https://a.com".to_string()]);
}

#[test]
fn fetch_page_takes_first_match() {
    let pages = vec![page("https://a.com", "one"), page("https://a.com", "two")];
    assert_eq!(web_crawler::fetch_page(&pages, &"https://a.com".to_string()).unwrap(), "one");
    assert_eq!(
        web_crawler::fetch_page(&pages, &"https://b.com".to_string()).unwrap_err(),
        FetchError::ConnectionError
    );
}

#[test]
fn tree_site_reports_within_depth_and_fetches_below_it() {
    let pages = vec![
        page("https://t.io", r#"<a href="/a">a</a><a href="/b">b</a>"#),
        page("https://t.io/a", r#"<a href="/a/1">1</a><a href="/a/2">2</a>"#),
        page("https://t.io/b", r#"<a href="/b/1">1</a>"#),
        page("https://t.io/a/1", r#"<a href="/deep">d</a>"#),
        page("https://t.io/a/2", ""),
        page("https://t.io/b/1", ""),
    ];
    let c = crawl_site("https://t.io", 2, 3, &pages).unwrap();
    assert_eq!(
        sorted(c.results()),
        vec![
            "https://t.io".to_string(),
            "https://t.io/a".to_string(),
            "https://t.io/a/1".to_string(),
            "https://t.io/a/2".to_string(),
            "https://t.io/b".to_string(),
            "https://t.io/b/1".to_string(),
        ]
    );
    assert!(c.failures().is_empty());
}

#[test]
fn failed_page_is_neither_reported_nor_expanded() {
    let pages = vec![
        page("https://a.com", r#"<a href="/bad">b</a><a href="/ok">o</a>"#),
        failing("https://a.com/bad", FetchError::DecodeError),
        page("https://a.com/ok", r#"<a href="/ok/child">c</a>"#),
    ];
    let c = crawl_site("https://a.com", 2, 1, &pages).unwrap();
    assert_eq!(
        sorted(c.results()),
        vec!["https://a.com".to_string(), "https://a.com/ok".to_string(), "https://a.com/ok/child".to_string()]
    );
    assert_eq!(c.failures().len(), 1);
    assert_eq!(c.failures()[0].url, "https://a.com/bad");
}
