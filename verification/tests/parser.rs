use waf_gateway::http1::{parse, Http, ParseError};

fn head(text: &str) -> Result<Http, ParseError> {
    parse(text.as_bytes().to_vec())
}

fn field<'a>(http: &'a Http, name: &str) -> Option<&'a str> {
    http.properties.get(name).map(|v| v.as_str())
}

#[test]
fn parses_request_line_and_fields() {
    let http = head("GET /health HTTP/1.1\r\nHost: x\r\nAccept: */*").unwrap();
    assert_eq!(http.method, "GET");
    assert_eq!(http.location, "/health");
    assert_eq!(http.properties.len(), 2);
    assert_eq!(field(&http, "Host"), Some("x"));
    assert_eq!(field(&http, "Accept"), Some("*/*"));
    assert_eq!(field(&http, "host"), None);
}

#[test]
fn request_line_alone_has_no_fields() {
    let http = head("GET / HTTP/1.1").unwrap();
    assert_eq!(http.method, "GET");
    assert_eq!(http.location, "/");
    assert!(http.properties.is_empty());
}

#[test]
fn lines_may_end_in_line_feed_alone() {
    let http = head("POST /x HTTP/1.1\nContent-Length: 5\nHost: y").unwrap();
    assert_eq!(http.method, "POST");
    assert_eq!(field(&http, "Content-Length"), Some("5"));
    assert_eq!(field(&http, "Host"), Some("y"));
}

#[test]
fn later_field_overrides_earlier() {
    let http = head("GET / HTTP/1.1\r\nX-A: 1\r\nX-B: 2\r\nX-A: 3").unwrap();
    assert_eq!(http.properties.len(), 2);
    assert_eq!(field(&http, "X-A"), Some("3"));
    assert_eq!(field(&http, "X-B"), Some("2"));
}

#[test]
fn field_names_are_case_sensitive() {
    let http = head("GET / HTTP/1.1\r\ncontent-length: 1\r\nContent-Length: 2").unwrap();
    assert_eq!(field(&http, "content-length"), Some("1"));
    assert_eq!(field(&http, "Content-Length"), Some("2"));
}

#[test]
fn names_and_values_are_trimmed() {
    let http = head("GET / HTTP/1.1\r\n  Host \t:   example.org  \r\nEmpty:").unwrap();
    assert_eq!(field(&http, "Host"), Some("example.org"));
    assert_eq!(field(&http, "Empty"), Some(""));
}

#[test]
fn value_is_cut_at_first_colon_only() {
    let http = head("GET / HTTP/1.1\r\nHost: example.org:8080").unwrap();
    assert_eq!(field(&http, "Host"), Some("example.org:8080"));
}

#[test]
fn unicode_whitespace_is_trimmed() {
    let http = head("GET / HTTP/1.1\u{a0}\r\n\u{2028}Host\u{85}:\u{2003}x\u{3000}\r").unwrap();
    assert_eq!(http.method, "GET");
    assert_eq!(http.location, "/");
    assert_eq!(field(&http, "Host"), Some("x"));
    assert_eq!(http.properties.len(), 1);
}

#[test]
fn lines_are_trimmed_at_the_end() {
    let http = head("GET /a HTTP/1.1 \t\r\nA: b \r\n").unwrap();
    assert_eq!(http.method, "GET");
    assert_eq!(http.location, "/a");
    assert_eq!(field(&http, "A"), Some("b"));
    assert_eq!(http.properties.len(), 1);
}

#[test]
fn request_line_is_not_trimmed_at_the_start() {
    assert!(matches!(head(" GET / HTTP/1.1"), Err(ParseError::UnsupportedVersion)));
    let http = head("\tGET / HTTP/1.1").unwrap();
    assert_eq!(http.method, "\tGET");
}

#[test]
fn line_feed_at_the_end_starts_no_line() {
    let http = head("GET /a HTTP/1.1\r\nA: b\r\n").unwrap();
    assert_eq!(http.properties.len(), 1);
    let http = head("GET /a HTTP/1.1\n").unwrap();
    assert_eq!(http.location, "/a");
    assert!(http.properties.is_empty());
}

#[test]
fn blank_lines_are_malformed() {
    assert!(matches!(head("\r\nGET /a HTTP/1.1"), Err(ParseError::MalformedRequest)));
    assert!(matches!(head("GET /a HTTP/1.1\r\n\r\n"), Err(ParseError::MalformedRequest)));
    assert!(matches!(head("GET /a HTTP/1.1\r\n \r\nA: b"), Err(ParseError::MalformedRequest)));
    assert!(matches!(head("\n"), Err(ParseError::MalformedRequest)));
    assert!(matches!(head(" "), Err(ParseError::MalformedRequest)));
    assert!(matches!(head(" \r\n\t "), Err(ParseError::MalformedRequest)));
}

#[test]
fn empty_block_is_the_empty_head() {
    let http = head("").unwrap();
    assert_eq!(http.method, "");
    assert_eq!(http.location, "");
    assert!(http.properties.is_empty());
}

#[test]
fn empty_location_between_two_spaces() {
    let http = head("GET  HTTP/1.1").unwrap();
    assert_eq!(http.method, "GET");
    assert_eq!(http.location, "");
}

#[test]
fn version_must_be_http_1_1() {
    assert!(matches!(head("GET / HTTP/1.0"), Err(ParseError::UnsupportedVersion)));
    assert!(matches!(head("GET / HTTP/2"), Err(ParseError::UnsupportedVersion)));
    assert!(matches!(head("GET / http/1.1"), Err(ParseError::UnsupportedVersion)));
    assert!(matches!(head("GET / HTTP/1.1 x"), Err(ParseError::UnsupportedVersion)));
    assert!(matches!(head("GET /a b HTTP/1.1"), Err(ParseError::UnsupportedVersion)));
    assert!(matches!(head("GET /  HTTP/1.1"), Err(ParseError::UnsupportedVersion)));
}

#[test]
fn request_line_needs_three_parts() {
    assert!(matches!(head("GET"), Err(ParseError::MalformedRequest)));
    assert!(matches!(head("GET /"), Err(ParseError::MalformedRequest)));
    assert!(matches!(head("GET\t/\tHTTP/1.1"), Err(ParseError::MalformedRequest)));
}

#[test]
fn header_line_needs_a_colon() {
    assert!(matches!(head("GET / HTTP/1.1\r\nHost x"), Err(ParseError::MalformedRequest)));
    assert!(matches!(
        head("GET / HTTP/1.1\r\nA: b\r\n\r\nC: d"),
        Err(ParseError::MalformedRequest)
    ));
}

#[test]
fn request_line_error_comes_before_header_error() {
    assert!(matches!(head("GET / HTTP/1.0\r\nHost x"), Err(ParseError::UnsupportedVersion)));
}

#[test]
fn invalid_utf8_is_malformed() {
    let mut block = b"GET / HTTP/1.1\r\nHost: ".to_vec();
    block.push(0xff);
    assert!(matches!(parse(block), Err(ParseError::MalformedRequest)));
    assert!(matches!(parse(vec![0xc3]), Err(ParseError::MalformedRequest)));
    assert!(matches!(parse(vec![0xed, 0xa0, 0x80]), Err(ParseError::MalformedRequest)));
}

#[test]
fn multibyte_text_is_kept() {
    let http = head("GET /caf\u{e9} HTTP/1.1\r\nX-Name: \u{65e5}\u{672c}").unwrap();
    assert_eq!(http.location, "/caf\u{e9}");
    assert_eq!(field(&http, "X-Name"), Some("\u{65e5}\u{672c}"));
}

fn format_head(method: &str, location: &str, fields: &[(&str, &str)]) -> Vec<u8> {
    let mut text = format!("{} {} HTTP/1.1", method, location);
    for (name, value) in fields {
        text.push_str(&format!("\r\n{}: {}", name, value));
    }
    text.into_bytes()
}

#[test]
fn formatted_head_parses_back() {
    let fields = [("Host", "example.org"), ("Content-Length", "12"), ("X-Pad", "  padded \t")];
    let http = parse(format_head("PUT", "/items/7", &fields)).unwrap();
    assert_eq!(http.method, "PUT");
    assert_eq!(http.location, "/items/7");
    assert_eq!(http.properties.len(), 3);
    assert_eq!(field(&http, "Host"), Some("example.org"));
    assert_eq!(field(&http, "Content-Length"), Some("12"));
    assert_eq!(field(&http, "X-Pad"), Some("padded"));
}

#[test]
fn default_head_is_empty() {
    let http = Http::default();
    assert_eq!(http.method, "");
    assert_eq!(http.location, "");
    assert!(http.properties.is_empty());
}
