use crawler::fetch::html_content_type;

#[test]
fn html_content_types_pass_the_gate() {
    assert!(html_content_type(Some("text/html")));
    assert!(html_content_type(Some("text/html; charset=utf-8")));
}

#[test]
fn other_content_types_are_rejected() {
    assert!(!html_content_type(Some("application/pdf")));
    assert!(!html_content_type(Some("text/plain")));
    assert!(!html_content_type(Some("image/png")));
}

#[test]
fn a_missing_header_is_rejected() {
    assert!(!html_content_type(None));
}
