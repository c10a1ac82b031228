use leadextract::lead::{Lead, Social};
use leadextract::output::{csv_table, summary_counts};
use leadextract::targets::{is_web_url, resolve_targets, urls_from_list, Targets};

fn sample() -> Vec<Lead> {
    let mut a = Lead::new("https://a.com".to_string());
    a.emails = vec!["x@a.com".to_string(), "y@a.com".to_string()];
    a.names = vec!["Ann".to_string()];
    a.socials = vec![Social {
        platform: "github".to_string(),
        url: "https://github.com/ann".to_string(),
        username: Some("ann".to_string()),
    }];
    let mut b = Lead::new("https://b.com".to_string());
    b.phones = vec!["555-867-5309".to_string()];
    b.socials = vec![Social {
        platform: "twitter".to_string(),
        url: "https://x.com/intent".to_string(),
        username: None,
    }];
    vec![a, b]
}

#[test]
fn totals_add_up_over_leads() {
    assert_eq!(summary_counts(&sample()), (2, 1, 2, 1));
    assert_eq!(summary_counts(&Vec::new()), (0, 0, 0, 0));
}

#[test]
fn csv_has_header_then_one_row_per_item() {
    let rows = csv_table(&sample());
    let flat: Vec<[String; 5]> = rows
        .iter()
        .map(|r| [r.source_url.clone(), r.kind.clone(), r.value.clone(), r.platform.clone(), r.username.clone()])
        .collect();
    let s = |v: [&str; 5]| v.map(|x| x.to_string());
    assert_eq!(
        flat,
        vec![
            s(["source_url", "type", "value", "platform", "username"]),
            s(["https://a.com", "name", "Ann", "", ""]),
            s(["https://a.com", "email", "x@a.com", "", ""]),
            s(["https://a.com", "email", "y@a.com", "", ""]),
            s(["https://a.com", "social", "https://github.com/ann", "github", "ann"]),
            s(["https://b.com", "phone", "555-867-5309", "", ""]),
            s(["https://b.com", "social", "https://x.com/intent", "twitter", ""]),
        ]
    );
    let (e, p, so, n) = summary_counts(&sample());
    assert_eq!(rows.len() - 1, e + p + so + n);
}

#[test]
fn web_urls_need_a_scheme() {
    assert!(is_web_url("http://a.b"));
    assert!(is_web_url("https://a.b"));
    assert!(!is_web_url("ftp://a.b"));
    assert!(!is_web_url("a.b"));
}

#[test]
fn url_lists_skip_blank_comment_and_other_lines() {
    let contents = "https://a.com\r\n\n  # comment\n#https://skip.com\n  http://b.com  \nftp://c.com\nd.com\n";
    assert_eq!(urls_from_list(contents), vec!["https://a.com".to_string(), "http://b.com".to_string()]);
    assert!(urls_from_list("").is_empty());
}

#[test]
fn targets_resolve_in_order_of_kind() {
    match resolve_targets("https://x.com", Some(Ok("https://ignored.com".to_string()))) {
        Targets::Url(u) => assert_eq!(u, "https://x.com"),
        _ => panic!("expected a URL"),
    }
    match resolve_targets("urls.txt", Some(Ok("https://a.com\nhttps://b.com".to_string()))) {
        Targets::Listed(v) => assert_eq!(v, vec!["https://a.com".to_string(), "https://b.com".to_string()]),
        _ => panic!("expected a list"),
    }
    match resolve_targets("urls.txt", Some(Err("denied".to_string()))) {
        Targets::Unreadable(e) => assert_eq!(e, "denied"),
        _ => panic!("expected a read failure"),
    }
    match resolve_targets("example.com", None) {
        Targets::Assumed(u) => assert_eq!(u, "https://example.com"),
        _ => panic!("expected an assumed URL"),
    }
    match resolve_targets("localhost", None) {
        Targets::Assumed(u) => assert_eq!(u, "https://localhost"),
        _ => panic!("expected an assumed URL"),
    }
    match resolve_targets("not a host", None) {
        Targets::Assumed(u) => assert_eq!(u, "https://not a host"),
        _ => panic!("expected an assumed URL"),
    }
}
