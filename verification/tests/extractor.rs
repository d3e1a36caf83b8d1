use crawler::links::extract_links;

const PAGE: &str = "<html><body>\
<a href=\"/p1\">one</a>\
<a href=\"//cdn.example/x\">two</a>\
<a href=\"#frag\">three</a>\
<a href=\"http://insecure.example/\">four</a>\
<a>no href</a>\
<link rel=\"stylesheet\" href=\"/style.css\">\
<area href=\"/map\">\
</body></html>";

#[test]
fn extracts_normalized_links_in_document_order() {
    let links = extract_links(PAGE, "a.example");
    let urls: Vec<&str> = links.iter().map(|u| u.url.as_str()).collect();
    assert_eq!(urls, vec!["https://a.example/p1", "https://cdn.example/x", "https://a.example/map"]);
}

#[test]
fn extracting_twice_yields_identical_sequences() {
    let first = extract_links(PAGE, "a.example");
    let second = extract_links(PAGE, "a.example");
    assert_eq!(first.len(), second.len());
    for (a, b) in first.iter().zip(second.iter()) {
        assert_eq!(a.url, b.url);
        assert_eq!(a.domain, b.domain);
        assert_eq!(a.path, b.path);
    }
}

#[test]
fn stylesheet_links_are_skipped() {
    let links = extract_links(
        "<body><link rel=\"stylesheet\" href=\"/s.css\"><a href=\"/a\">x</a></body>",
        "a.example",
    );
    let urls: Vec<&str> = links.iter().map(|u| u.url.as_str()).collect();
    assert_eq!(urls, vec!["https://a.example/a"]);
}

#[test]
fn links_outside_body_are_ignored() {
    let links = extract_links(
        "<html><head><link href=\"/head.css\"></head><body><a href=\"/in\">x</a></body></html>",
        "a.example",
    );
    let urls: Vec<&str> = links.iter().map(|u| u.url.as_str()).collect();
    assert_eq!(urls, vec!["https://a.example/in"]);
}

#[test]
fn duplicates_are_kept_for_the_caller_to_handle() {
    let links = extract_links(
        "<body><a href=\"/p\">x</a><a href=\"/p\">y</a></body>",
        "a.example",
    );
    assert_eq!(links.len(), 2);
    assert_eq!(links[0].url, links[1].url);
}

#[test]
fn extracted_urls_carry_no_query_or_fragment() {
    let links = extract_links(
        "<body><a href=\"/p?q=1#f\">x</a><a href=\"https://b.example/r?z=2\">y</a></body>",
        "a.example",
    );
    assert_eq!(links.len(), 2);
    for u in &links {
        assert!(!u.url.contains('?'));
        assert!(!u.url.contains('#'));
    }
}
