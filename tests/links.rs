use web_crawler::{base_url, extract_urls, is_absolute_url, resolve_link, resolve_links};

#[test]
fn relative_link_resolves_against_origin() {
    let html = r#"<p><a href="/y">y</a></p>"#;
    assert_eq!(extract_urls(html, "https://a.com/x"), vec!["https://a.com/y".to_string()]);
}

#[test]
fn absolute_link_kept_unchanged() {
    let html = r#"<a href="https://b.com/z">z</a>"#;
    assert_eq!(extract_urls(html, "https://a.com/x"), vec!["https://b.com/z".to_string()]);
}

#[test]
fn links_kept_in_order_with_duplicates() {
    let html = r##"<a href="/a">1</a> <a href="mailto:x@y.z">2</a> <a href="#top">3</a> <a href="/a">4</a>"##;
    assert_eq!(
        extract_urls(html, "http://h.org:8080/dir/page"),
        vec![
            "http://h.org:8080/a".to_string(),
            "mailto:x@y.z".to_string(),
            "#top".to_string(),
            "http://h.org:8080/a".to_string(),
        ]
    );
}

#[test]
fn single_quoted_and_unquoted_hrefs_not_recognized() {
    let html = "<a href='/one'>1</a> <a href=/two>2</a>";
    assert!(extract_urls(html, "https://a.com").is_empty());
}

#[test]
fn empty_page_has_no_links() {
    assert!(extract_urls("", "https://a.com").is_empty());
}

#[test]
fn relative_link_on_page_without_origin_stays_relative() {
    let html = r#"<a href="/p">p</a>"#;
    assert_eq!(extract_urls(html, "not a url"), vec!["/p".to_string()]);
}

#[test]
fn base_url_cases() {
    assert_eq!(base_url("https://a.com/x/y"), "https://a.com");
    assert_eq!(base_url("https://a.com"), "https://a.com");
    assert_eq!(base_url("http://a.com:81/"), "http://a.com:81");
    assert_eq!(base_url("https:///x"), "");
    assert_eq!(base_url("ftp://a.com/x"), "");
    assert_eq!(base_url("/relative"), "");
}

#[test]
fn absolute_url_cases() {
    assert!(is_absolute_url("https://a.com"));
    assert!(is_absolute_url("http://a.com/p"));
    assert!(!is_absolute_url("/p"));
    assert!(!is_absolute_url("mailto:x@y.z"));
    assert!(!is_absolute_url("https://"));
}

#[test]
fn resolve_link_cases() {
    assert_eq!(resolve_link("/y", "https://a.com"), "https://a.com/y");
    assert_eq!(resolve_link("y", "https://a.com"), "y");
    assert_eq!(resolve_link("", "https://a.com"), "");
    assert_eq!(resolve_link("/", ""), "/");
}

#[test]
fn resolve_links_keeps_order() {
    let hrefs = vec!["/a".to_string(), "b".to_string(), "/c".to_string()];
    assert_eq!(
        resolve_links(&hrefs, "https://s.io"),
        vec!["https://s.io/a".to_string(), "b".to_string(), "https://s.io/c".to_string()]
    );
}

#[test]
fn href_after_other_attributes_is_found() {
    let html = r#"<a class="nav" href="/y">y</a> <a
  id="k" href="https://b.com/z">z</a>"#;
    assert_eq!(
        extract_urls(html, "https://a.com/x"),
        vec!["https://a.com/y".to_string(), "https://b.com/z".to_string()]
    );
}

#[test]
fn non_anchor_href_is_ignored() {
    let html = r#"<link href="/style.css"><abbr href="/no">x</abbr>"#;
    assert!(extract_urls(html, "https://a.com").is_empty());
}
