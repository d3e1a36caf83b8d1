use crawler::canon::normalize;

#[test]
fn fragment_only_href_is_filtered() {
    assert!(normalize("#frag", "a.example").is_none());
}

#[test]
fn protocol_relative_href_gets_https() {
    let u = normalize("//cdn.x/y", "a.example").unwrap();
    assert_eq!(u.url, "https://cdn.x/y");
    assert_eq!(u.domain.as_deref(), Some("cdn.x"));
    assert_eq!(u.path, "/y");
}

#[test]
fn root_relative_href_joins_source_domain() {
    let u = normalize("/p", "a.example").unwrap();
    assert_eq!(u.url, "https://a.example/p");
    assert_eq!(u.domain.as_deref(), Some("a.example"));
    assert_eq!(u.path, "/p");
}

#[test]
fn insecure_scheme_is_filtered() {
    assert!(normalize("http://insecure.example/", "a.example").is_none());
}

#[test]
fn other_schemes_are_filtered() {
    assert!(normalize("mailto:someone@example.com", "a.example").is_none());
    assert!(normalize("javascript:void(0)", "a.example").is_none());
    assert!(normalize("relative/path", "a.example").is_none());
}

#[test]
fn unparseable_href_is_filtered() {
    assert!(normalize("https://exa mple.com/", "a.example").is_none());
    assert!(normalize("https://", "a.example").is_none());
}

#[test]
fn query_and_fragment_are_stripped() {
    let u = normalize("https://a.example/p?q=1#top", "a.example").unwrap();
    assert_eq!(u.url, "https://a.example/p");
    assert!(!u.url.contains('?'));
    assert!(!u.url.contains('#'));
}

#[test]
fn output_never_carries_query_or_fragment() {
    let cases = [
        "https://a.example/?x=1",
        "https://a.example/p#frag",
        "//cdn.x/y?a=b#c",
        "/p?z=9#s",
        "https://a.example/p?q=%23enc",
    ];
    for href in cases {
        let u = normalize(href, "a.example").unwrap();
        assert!(!u.url.contains('?'), "query left in {}", u.url);
        assert!(!u.url.contains('#'), "fragment left in {}", u.url);
    }
}

#[test]
fn bare_domain_gets_root_path() {
    let u = normalize("https://a.example", "b.example").unwrap();
    assert_eq!(u.url, "https://a.example/");
    assert_eq!(u.path, "/");
}

#[test]
fn ip_hosts_have_no_domain() {
    let u = normalize("https://127.0.0.1/x", "a.example").unwrap();
    assert!(u.domain.is_none());
}
