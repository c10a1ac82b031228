use leadextract::lead::{dedup_vec, Lead, Social};

fn social(platform: &str, url: &str) -> Social {
    Social { platform: platform.to_string(), url: url.to_string(), username: None }
}

#[test]
fn strings_dedup_ignoring_case_keeping_first() {
    let mut v = vec!["A@x.com".to_string(), "b@x.com".to_string(), "a@X.COM".to_string(), "B@x.com".to_string()];
    dedup_vec(&mut v);
    assert_eq!(v, vec!["A@x.com".to_string(), "b@x.com".to_string()]);
}

#[test]
fn dedup_twice_is_dedup_once() {
    let mut v = vec!["x".to_string(), "X".to_string(), "y".to_string(), "x".to_string()];
    dedup_vec(&mut v);
    let once = v.clone();
    dedup_vec(&mut v);
    assert_eq!(v, once);
}

#[test]
fn lead_dedup_covers_every_list() {
    let mut lead = Lead::new("https://a.b".to_string());
    assert!(!lead.has_data());
    lead.emails = vec!["a@b.c".to_string(), "A@B.C".to_string()];
    lead.phones = vec!["1".to_string(), "1".to_string()];
    lead.names = vec!["Ann".to_string(), "ann".to_string(), "Bob".to_string()];
    lead.socials = vec![
        social("github", "https://github.com/u"),
        social("twitter", "https://github.com/u"),
        social("github", "https://github.com/U"),
    ];
    lead.dedup();
    assert_eq!(lead.emails, vec!["a@b.c".to_string()]);
    assert_eq!(lead.phones, vec!["1".to_string()]);
    assert_eq!(lead.names, vec!["Ann".to_string(), "Bob".to_string()]);
    assert_eq!(lead.socials.len(), 2);
    assert_eq!(lead.socials[0].platform, "github");
    assert_eq!(lead.socials[1].url, "https://github.com/U");
    assert!(lead.has_data());
}

#[test]
fn socials_are_equal_by_url() {
    assert!(social("github", "u") == social("twitter", "u"));
    assert!(social("github", "u") != social("github", "v"));
}

#[test]
fn has_data_when_any_list_is_filled() {
    let mut lead = Lead::new("u".to_string());
    lead.names.push("n".to_string());
    assert!(lead.has_data());
    let mut lead = Lead::new("u".to_string());
    lead.socials.push(social("github", "u"));
    assert!(lead.has_data());
}
