use silly_proxy::request::{asks_for_image, parse_domain};

#[test]
fn parse_normal() {
    let request = "GET pages.cpsc.ucalgary.ca/ HTTP/1.0\r\n\r\n";
    assert_eq!(Some("pages.cpsc.ucalgary.ca"), parse_domain(request));
}

#[test]
fn parse_fancy() {
    let request = "GET http://pages.cpsc.ucalgary.ca/ HTTP/1.0\r\n\r\n";
    assert_eq!(Some("pages.cpsc.ucalgary.ca"), parse_domain(request));
}

#[test]
fn parse_long() {
    let request = "GET http://pages.cpsc.ucalgary.ca/~carey/index.html HTTP/1.0\r\n\r\nskldjflsd\r\nslkdjf\r\n\r\n";
    assert_eq!(Some("pages.cpsc.ucalgary.ca"), parse_domain(request));
}

#[test]
fn parse_same_host_with_and_without_scheme() {
    let with = parse_domain("GET https://example.com/a/b.html HTTP/1.1\r\nHost: x\r\n\r\n");
    let without = parse_domain("GET example.com/a/b.html HTTP/1.1\r\nHost: x\r\n\r\n");
    assert_eq!(Some("example.com"), with);
    assert_eq!(with, without);
}

#[test]
fn parse_extra_spaces_and_tabs() {
    assert_eq!(Some("example.com"), parse_domain("  GET \t http://example.com/x HTTP/1.0\r\n"));
}

#[test]
fn parse_no_second_token() {
    assert_eq!(None, parse_domain("GET\r\nHost: example.com/\r\n\r\n"));
    assert_eq!(None, parse_domain(""));
    assert_eq!(None, parse_domain("\nGET http://example.com/ HTTP/1.0"));
}

#[test]
fn parse_no_slash_after_host() {
    assert_eq!(None, parse_domain("GET http://example.com HTTP/1.0\r\n\r\n"));
    assert_eq!(None, parse_domain("GET example.com HTTP/1.0\r\n\r\n"));
}

#[test]
fn parse_empty_host() {
    assert_eq!(None, parse_domain("GET / HTTP/1.0\r\n\r\n"));
    assert_eq!(None, parse_domain("GET http:/// HTTP/1.0\r\n\r\n"));
}

#[test]
fn parse_first_separator_counts() {
    assert_eq!(Some("b"), parse_domain("GET a://b/c://d/ HTTP/1.0\r\n"));
}

#[test]
fn image_requests_are_recognised() {
    assert!(asks_for_image("GET http://example.com/pic.jpg HTTP/1.0\r\n\r\n"));
    assert!(!asks_for_image("GET http://example.com/pic.png HTTP/1.0\r\n\r\n"));
    assert!(!asks_for_image("GET http://example.com/ HTTP/1.0\r\nX: a.jpg\r\n\r\n"));
    assert!(!asks_for_image("GET\r\n"));
}
