use leadextract::crawler::{
    base_domain, check_content_type, check_url, extract_internal_links, internal_link_of,
    normalize_url, RateLimiter,
};
use leadextract::frontier::Frontier;

#[test]
fn urls_normalize_without_fragment_slash_and_case() {
    assert_eq!(normalize_url("HTTPS://Example.com/Path/#frag"), "https://example.com/path");
    assert_eq!(normalize_url("https://example.com///"), "https://example.com");
    assert_eq!(normalize_url("https://a.b/x#/y/"), "https://a.b/x");
}

#[test]
fn binary_extensions_are_skipped() {
    assert_eq!(check_url("https://a.b/logo.PNG"), Err("Skipped binary extension: .png".to_string()));
    assert_eq!(check_url("https://a.b/app.js"), Err("Skipped binary extension: .js".to_string()));
    assert_eq!(check_url("https://a.b/about"), Ok(()));
    assert_eq!(check_url("https://a.b/page.html"), Ok(()));
}

#[test]
fn non_page_content_types_are_skipped() {
    assert_eq!(
        check_content_type("image/png"),
        Err("Skipped content type: image/png".to_string())
    );
    assert_eq!(
        check_content_type("application/octet-stream"),
        Err("Skipped content type: application/octet-stream".to_string())
    );
    assert_eq!(check_content_type("text/html; charset=utf-8"), Ok(()));
}

#[test]
fn internal_links_resolve_and_drop_fragments() {
    let page = "https://example.com/team/";
    assert_eq!(internal_link_of(page, " /contact#form ", "example.com"), Some("https://example.com/contact".to_string()));
    assert_eq!(internal_link_of(page, "bio", "example.com"), Some("https://example.com/team/bio".to_string()));
    assert_eq!(internal_link_of(page, "https://blog.example.com/x", "example.com"), Some("https://blog.example.com/x".to_string()));
    assert_eq!(internal_link_of(page, "https://notexample.com/x", "example.com"), None);
    assert_eq!(internal_link_of(page, "https://other.org/", "example.com"), None);
    assert_eq!(internal_link_of(page, "#top", "example.com"), None);
    assert_eq!(internal_link_of(page, "mailto:a@example.com", "example.com"), None);
    assert_eq!(internal_link_of(page, "javascript:void(0)", "example.com"), None);
    assert_eq!(internal_link_of("not a url", "/x", "example.com"), None);
}

#[test]
fn internal_links_of_a_page() {
    let html = r##"<a href="/a">a</a><a href="https://other.org/b">b</a><a href="#x">x</a><a href="c#d">c</a>"##;
    let links = extract_internal_links(html, "https://example.com/", "example.com");
    assert_eq!(links, vec!["https://example.com/a".to_string(), "https://example.com/c".to_string()]);
    assert!(links.iter().all(|l| !l.contains('#')));
}

#[test]
fn base_domain_is_the_start_host() {
    assert_eq!(base_domain("https://www.example.com/x"), Ok("www.example.com".to_string()));
    assert_eq!(base_domain("mailto:a@b.c"), Err("URL has no host".to_string()));
    assert_eq!(
        base_domain("example.com"),
        Err("Invalid URL: relative URL without a base".to_string())
    );
}

fn page(links: &[&str]) -> String {
    links.iter().map(|l| format!("<a href=\"{l}\">x</a>")).collect()
}

#[test]
fn frontier_batches_in_order_and_never_requeues() {
    let mut f = Frontier::new("https://example.com/", 2).unwrap();
    assert_eq!(f.domain(), "example.com");
    let first = f.next_batch();
    assert_eq!(first, vec![("https://example.com/".to_string(), 0)]);
    let home = page(&["https://example.com", "/a", "https://EXAMPLE.com/a/", "/b", "https://other.org/x"]);
    assert_eq!(f.visit("https://example.com/", 0, &home), None);
    let second = f.next_batch();
    assert_eq!(
        second,
        vec![("https://example.com/a".to_string(), 1), ("https://example.com/b".to_string(), 1)]
    );
    f.visit("https://example.com/a", 1, &page(&["/a", "/c"]));
    assert_eq!(f.next_batch(), vec![("https://example.com/c".to_string(), 2)]);
    f.visit("https://example.com/c", 2, &page(&["/d"]));
    assert!(f.next_batch().is_empty());
}

#[test]
fn frontier_ignores_pages_it_did_not_hand_out() {
    let mut f = Frontier::new("https://example.com/", 2).unwrap();
    assert_eq!(f.visit("https://example.com/", 0, "<p>hello@company.com</p>"), None);
    assert!(f.leads().is_empty());
    f.next_batch();
    assert_eq!(f.visit("https://example.com/", 1, "<p>hello@company.com</p>"), None);
    assert!(f.leads().is_empty());
}

#[test]
fn frontier_fetches_each_page_once() {
    let mut f = Frontier::new("https://example.com/", 1).unwrap();
    f.next_batch();
    let home = format!("<p>hello@company.com</p>{}", page(&["/a"]));
    assert_eq!(f.visit("https://example.com/", 0, &home), Some((1, 0, 0)));
    assert_eq!(f.visit("https://example.com/", 0, &home), None);
    assert_eq!(f.leads().len(), 1);
    assert_eq!(f.next_batch(), vec![("https://example.com/a".to_string(), 1)]);
    assert!(f.next_batch().is_empty());
}

#[test]
fn frontier_hands_out_every_link_of_a_fetched_page() {
    let mut f = Frontier::new("https://example.com/", 1).unwrap();
    let mut handed_out = f.next_batch();
    let links = ["/p1", "/p2", "/p3", "/p4", "/p5", "/p6", "/p2#top", "https://example.com/P1/"];
    f.visit("https://example.com/", 0, &page(&links));
    loop {
        let batch = f.next_batch();
        if batch.is_empty() {
            break;
        }
        for (url, depth) in &batch {
            assert!(f.fetch_failed(url, *depth));
        }
        handed_out.extend(batch);
    }
    let urls: Vec<String> = handed_out.iter().map(|(u, _)| normalize_url(u)).collect();
    for link in extract_internal_links(&page(&links), "https://example.com/", "example.com") {
        assert!(urls.contains(&normalize_url(&link)));
    }
    assert_eq!(handed_out.len(), 7);
}

#[test]
fn frontier_keeps_leads_with_data() {
    let mut f = Frontier::new("https://example.com/", 1).unwrap();
    f.next_batch();
    let home = format!("<p>Hello@Company.com</p>{}", page(&["/empty"]));
    assert_eq!(f.visit("https://example.com/", 0, &home), Some((1, 0, 0)));
    assert_eq!(f.next_batch(), vec![("https://example.com/empty".to_string(), 1)]);
    assert_eq!(f.visit("https://example.com/empty", 1, "<p>nothing</p>"), None);
    assert_eq!(f.leads().len(), 1);
    assert_eq!(f.leads()[0].url, "https://example.com/");
    assert_eq!(f.leads()[0].emails, vec!["hello@company.com".to_string()]);
}

#[test]
fn frontier_needs_a_start_host() {
    assert_eq!(Frontier::new("mailto:a@b.c", 1).err(), Some("URL has no host".to_string()));
    assert!(Frontier::new("example.com", 1).is_err());
}

#[test]
fn frontier_batches_hold_at_most_five() {
    let mut f = Frontier::new("https://e.com/", 1).unwrap();
    f.next_batch();
    let links: Vec<String> = (0..7).map(|i| format!("/{i}")).collect();
    let refs: Vec<&str> = links.iter().map(|s| s.as_str()).collect();
    f.visit("https://e.com/", 0, &page(&refs));
    let first = f.next_batch();
    assert_eq!(first.len(), 5);
    for (url, depth) in &first {
        assert!(f.fetch_failed(url, *depth));
    }
    assert_eq!(f.next_batch().len(), 2);
    assert!(f.next_batch().is_empty());
}

#[test]
fn frontier_keeps_at_most_five_pages_in_flight() {
    let mut f = Frontier::new("https://e.com/", 1).unwrap();
    f.next_batch();
    let links: Vec<String> = (0..7).map(|i| format!("/{i}")).collect();
    let refs: Vec<&str> = links.iter().map(|s| s.as_str()).collect();
    f.visit("https://e.com/", 0, &page(&refs));
    let first = f.next_batch();
    assert_eq!(first.len(), 5);
    assert!(f.next_batch().is_empty());
    assert!(f.fetch_failed(&first[0].0, first[0].1));
    assert!(!f.fetch_failed(&first[0].0, first[0].1));
    assert_eq!(f.next_batch(), vec![("https://e.com/5".to_string(), 1)]);
    assert!(f.next_batch().is_empty());
    assert_eq!(f.visit(&first[1].0, first[1].1, "<p>hello@company.com</p>"), Some((1, 0, 0)));
    assert_eq!(f.next_batch(), vec![("https://e.com/6".to_string(), 1)]);
}

#[test]
fn frontier_fetch_failure_needs_a_page_in_flight() {
    let mut f = Frontier::new("https://e.com/", 1).unwrap();
    assert!(!f.fetch_failed("https://e.com/", 0));
    f.next_batch();
    assert!(!f.fetch_failed("https://e.com/", 1));
    assert!(f.fetch_failed("https://e.com/", 0));
    assert_eq!(f.visit("https://e.com/", 0, "<p>hello@company.com</p>"), None);
    assert!(f.leads().is_empty());
}

#[test]
fn depth_zero_crawls_only_the_start() {
    let mut f = Frontier::new("https://e.com/", 0).unwrap();
    assert_eq!(f.next_batch().len(), 1);
    f.visit("https://e.com/", 0, &page(&["/x"]));
    assert!(f.next_batch().is_empty());
}

#[test]
fn rate_limiter_spaces_requests_per_domain() {
    let mut rl = RateLimiter::new(1000);
    assert_eq!(rl.wait_for("a.com", 5000), 0);
    rl.record("a.com", 5000);
    assert_eq!(rl.wait_for("a.com", 5300), 700);
    assert_eq!(rl.wait_for("a.com", 6000), 0);
    assert_eq!(rl.wait_for("a.com", 9000), 0);
    assert_eq!(rl.wait_for("a.com", 4000), 1000);
    assert_eq!(rl.wait_for("b.com", 5300), 0);
    rl.record("a.com", 6000);
    assert_eq!(rl.wait_for("a.com", 6250), 750);
}
