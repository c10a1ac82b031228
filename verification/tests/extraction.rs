use leadextract::extractor::{
    collect_emails, collect_names, collect_phones, extract_all, extract_emails, extract_names,
    extract_phones, extract_socials, is_false_email, mailto_address_of, normalize_phone,
    strip_tags, tel_number_of, username_from_path,
};

#[test]
fn test_extract_emails() {
    let html = r#"
            <p>Contact us at hello@company.com or sales@company.com</p>
            <a href="mailto:info@company.com?subject=Hi">Email us</a>
            <img src="logo@2x.png" />
        "#;
    let emails = extract_emails(html);
    assert!(emails.contains(&"hello@company.com".to_string()));
    assert!(emails.contains(&"sales@company.com".to_string()));
    assert!(emails.contains(&"info@company.com".to_string()));
    // Should not contain image false positive
    assert!(!emails.iter().any(|e| e.contains(".png")));
}

#[test]
fn test_extract_phones() {
    let html = r#"
            <p>Call us: +1 (555) 123-4567</p>
            <p>Or: 555-867-5309</p>
            <a href="tel:+44-20-7946-0958">UK Office</a>
        "#;
    let phones = extract_phones(html);
    assert!(!phones.is_empty());
}

#[test]
fn test_extract_socials() {
    let html = r#"
            <a href="https://github.com/nullfeel">GitHub</a>
            <a href="https://twitter.com/nullfeel">Twitter</a>
            <a href="https://linkedin.com/in/johndoe">LinkedIn</a>
        "#;
    let socials = extract_socials(html);
    assert_eq!(socials.len(), 3);
    assert!(socials.iter().any(|s| s.platform == "github"));
    assert!(socials.iter().any(|s| s.platform == "twitter"));
    assert!(socials.iter().any(|s| s.platform == "linkedin"));
}

#[test]
fn test_extract_names() {
    let html = r#"
            <html><head>
                <meta name="author" content="John Doe" />
                <meta property="og:site_name" content="Doe Consulting" />
            </head><body></body></html>
        "#;
    let names = extract_names(html);
    assert!(names.contains(&"John Doe".to_string()));
    assert!(names.contains(&"Doe Consulting".to_string()));
}

#[test]
fn false_emails_are_recognised() {
    assert!(is_false_email("logo@2x.png"));
    assert!(is_false_email("bundle@1.2.3.js"));
    assert!(is_false_email("someone@example.com"));
    assert!(is_false_email("abc@sentry.io"));
    assert!(is_false_email("x@webpack.dev"));
    assert!(is_false_email("data:image@x.y"));
    assert!(!is_false_email("hello@company.com"));
    assert!(!is_false_email("hello@company.community"));
}

#[test]
fn mailto_addresses_lose_scheme_query_and_case() {
    assert_eq!(mailto_address_of("mailto:Info@Company.COM?subject=Hi"), "info@company.com");
    assert_eq!(mailto_address_of("mailto:mailto: a@b.co "), "a@b.co");
    assert_eq!(mailto_address_of("mailto:?x"), "");
}

#[test]
fn text_emails_are_lowercased_and_filtered_in_order() {
    let matches = Some(vec!["Hello@Company.com".to_string(), "logo@2x.png".to_string()]);
    let hrefs = Some(vec![
        Some("mailto:Info@Company.com?subject=Hi".to_string()),
        None,
        Some("mailto:".to_string()),
        Some("mailto:demo@example.com".to_string()),
    ]);
    assert_eq!(
        collect_emails(matches, hrefs),
        vec!["hello@company.com".to_string(), "info@company.com".to_string()]
    );
    assert!(collect_emails(None, None).is_empty());
}

#[test]
fn phone_white_space_is_normalized() {
    assert_eq!(normalize_phone("  +1   (555)\t123-4567 \n"), "+1 (555) 123-4567");
    assert_eq!(normalize_phone("555-867-5309"), "555-867-5309");
    assert_eq!(normalize_phone("   "), "");
    let once = normalize_phone(" 1  2 ");
    assert_eq!(normalize_phone(&once), once);
}

#[test]
fn text_phones_need_seven_to_fifteen_digits() {
    let short = Some(vec!["+1 23".to_string()]);
    let good = Some(vec![" 555-867-5309 ".to_string()]);
    let long = Some(vec!["+1234567890123456".to_string()]);
    let tel = Some(vec![Some("tel: +44 20  7946 0958 ".to_string()), Some("tel:".to_string()), None]);
    assert_eq!(
        collect_phones(short, good, long, tel),
        vec!["555-867-5309".to_string(), "+44 20 7946 0958".to_string()]
    );
}

#[test]
fn tel_numbers_lose_scheme_and_spaces() {
    assert_eq!(tel_number_of("tel:+1-555-0100 "), "+1-555-0100");
    assert_eq!(tel_number_of("tel:tel:123"), "123");
}

#[test]
fn tags_become_spaces() {
    assert_eq!(strip_tags("<p>Call <b>now</b></p>"), " Call  now  ");
}

#[test]
fn phones_found_in_page_text_and_links() {
    let html = r#"<p>Call us: +1 (555) 123-4567</p><p>Or: 555-867-5309</p><a href="tel:+44-20-7946-0958">UK</a>"#;
    let phones = extract_phones(html);
    assert!(phones.contains(&"+1 (555) 123-4567".to_string()));
    assert!(phones.contains(&"555-867-5309".to_string()));
    assert_eq!(phones.last(), Some(&"+44-20-7946-0958".to_string()));
}

#[test]
fn usernames_follow_each_platform_rule() {
    let p = |s: &str| Some(s.to_string());
    assert_eq!(username_from_path(p("/in/johndoe"), "linkedin"), p("johndoe"));
    assert_eq!(username_from_path(p("/company/acme/about"), "linkedin"), p("acme"));
    assert_eq!(username_from_path(p("/johndoe"), "linkedin"), None);
    assert_eq!(username_from_path(p("/nullfeel/"), "github"), p("nullfeel"));
    assert_eq!(username_from_path(p("/@someone/video/1"), "tiktok"), p("someone"));
    assert_eq!(username_from_path(p("/@@"), "mastodon"), None);
    assert_eq!(username_from_path(p("/intent/tweet"), "twitter"), None);
    assert_eq!(username_from_path(p("/Share"), "facebook"), None);
    assert_eq!(username_from_path(p("/@handle"), "twitter"), p("handle"));
    assert_eq!(username_from_path(p("/"), "github"), None);
    assert_eq!(username_from_path(None, "github"), None);
}

#[test]
fn social_links_carry_platform_url_and_username() {
    let html = r#"<a href=" https://GitHub.com/nullfeel ">x</a><a href="https://example.org/">y</a><a href="https://x.com/intent/tweet">z</a>"#;
    let socials = extract_socials(html);
    assert_eq!(socials.len(), 2);
    assert_eq!(socials[0].platform, "github");
    assert_eq!(socials[0].url, "https://GitHub.com/nullfeel");
    assert_eq!(socials[0].username, Some("nullfeel".to_string()));
    assert_eq!(socials[1].platform, "twitter");
    assert_eq!(socials[1].username, None);
}

#[test]
fn names_are_trimmed_and_bounded() {
    let long = "x".repeat(100);
    let just_under = "é".repeat(49);
    let values = Some(vec![
        Some("  Jane Roe ".to_string()),
        Some("   ".to_string()),
        None,
        Some(long),
        Some(just_under.clone()),
        Some("é".repeat(50)),
    ]);
    assert_eq!(
        collect_names(values, None, None, None, None),
        vec!["Jane Roe".to_string(), just_under]
    );
}

#[test]
fn names_found_in_json_ld() {
    let html = r#"<script type="application/ld+json">{"@type": "Person", "name": "Ada Lovelace"}</script>
        <script>{"name":"Alan Turing","@type":"Person"}</script>"#;
    let names = extract_names(html);
    assert_eq!(names, vec!["Ada Lovelace".to_string(), "Alan Turing".to_string()]);
}

#[test]
fn whole_page_is_extracted_and_deduplicated() {
    let html = r#"<html><head><meta name="author" content="John Doe"><meta name="DC.creator" content="john doe"></head>
        <body>Mail Hello@Company.com or hello@company.com, call 555-867-5309.
        <a href="mailto:HELLO@company.com">m</a>
        <a href="https://github.com/nullfeel">g</a><a href="https://github.com/nullfeel">g again</a></body></html>"#;
    let lead = extract_all(html, "https://company.com/");
    assert_eq!(lead.url, "https://company.com/");
    assert_eq!(lead.emails, vec!["hello@company.com".to_string()]);
    assert_eq!(lead.phones, vec!["555-867-5309".to_string()]);
    assert_eq!(lead.names, vec!["John Doe".to_string()]);
    assert_eq!(lead.socials.len(), 1);
    assert!(lead.has_data());
}

#[test]
fn empty_page_has_no_data() {
    let lead = extract_all("<html></html>", "https://a.b/");
    assert!(!lead.has_data());
}
