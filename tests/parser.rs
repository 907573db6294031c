use spot::http_parser::{HttpParser, ParseError};

fn lines(v: &[&str]) -> Vec<String> {
    v.iter().map(|s| s.to_string()).collect()
}

#[test]
fn parses_get_with_params() {
    let req = HttpParser::parse("GET /user?name=cory&age=21 HTTP/1.1\r\n", &lines(&["Host: x"]), &[])
        .unwrap();
    assert_eq!(req.url, "/user?name=cory&age=21");
    assert_eq!(req.method, "GET");
    assert_eq!(req.http_version, "1.1");
    assert_eq!(req.params.get("name"), Some(&"cory".to_string()));
    assert_eq!(req.params.get("age"), Some(&"21".to_string()));
    assert_eq!(req.params.len(), 2);
    assert!(req.contains_params(vec!["name", "age"]));
    assert!(!req.contains_params(vec!["name", "email"]));
    assert!(req.body.is_empty());
}

#[test]
fn body_has_declared_length() {
    let rest = b"hello world, and more";
    let req = HttpParser::parse(
        "POST /post HTTP/1.1",
        &lines(&["Content-Length: 5", "Content-Type: text/plain"]),
        rest,
    )
    .unwrap();
    assert_eq!(req.body, b"hello".to_vec());
    assert_eq!(req.headers.get("content-length"), Some(&"5".to_string()));
    assert_eq!(req.headers.get("content-type"), Some(&"text/plain".to_string()));
}

#[test]
fn zero_content_length_gives_empty_body() {
    let req = HttpParser::parse("POST /post HTTP/1.1", &lines(&["content-length: 0"]), b"abc").unwrap();
    assert!(req.body.is_empty());
}

#[test]
fn negative_content_length_is_refused() {
    let r = HttpParser::parse("POST /post HTTP/1.1", &lines(&["content-length: -3"]), b"abc");
    assert_eq!(r.err(), Some(ParseError::InvalidContentLength));
}

#[test]
fn non_numeric_content_length_is_refused() {
    let r = HttpParser::parse("POST /post HTTP/1.1", &lines(&["content-length: ten"]), b"abc");
    assert_eq!(r.err(), Some(ParseError::InvalidContentLength));
    let r = HttpParser::parse(
        "POST /post HTTP/1.1",
        &lines(&["content-length: 999999999999999999999999"]),
        b"",
    );
    assert_eq!(r.err(), Some(ParseError::InvalidContentLength));
}

#[test]
fn large_content_length_is_a_length() {
    let r = HttpParser::parse("POST /post HTTP/1.1", &lines(&["content-length: 99999999999"]), b"ab");
    assert_eq!(r.err(), Some(ParseError::BodyReadFailure));
    assert_eq!(
        HttpParser::body_length("POST / HTTP/1.1", &lines(&["content-length: 3000000000"])),
        Ok(3000000000)
    );
    let req = HttpParser::parse("POST /post HTTP/1.1", &lines(&["content-length: +2"]), b"abc").unwrap();
    assert_eq!(req.body, b"ab".to_vec());
}

#[test]
fn short_body_is_a_read_failure() {
    let r = HttpParser::parse("POST /post HTTP/1.1", &lines(&["content-length: 10"]), b"abc");
    assert_eq!(r.err(), Some(ParseError::BodyReadFailure));
}

#[test]
fn one_word_request_line_is_malformed() {
    let r = HttpParser::parse("GET", &lines(&[]), b"");
    assert_eq!(r.err(), Some(ParseError::MalformedRequestLine));
    let r = HttpParser::parse("GET / HTTP/1.1 extra", &lines(&[]), b"");
    assert_eq!(r.err(), Some(ParseError::MalformedRequestLine));
    let r = HttpParser::parse("", &lines(&[]), b"");
    assert_eq!(r.err(), Some(ParseError::MalformedRequestLine));
}

#[test]
fn header_without_delimiter_is_malformed() {
    let r = HttpParser::parse("GET / HTTP/1.1", &lines(&["Host: a", "broken"]), b"");
    assert_eq!(r.err(), Some(ParseError::MalformedHeaderLine));
    let r = HttpParser::parse("GET / HTTP/1.1", &lines(&["Host:a"]), b"");
    assert_eq!(r.err(), Some(ParseError::MalformedHeaderLine));
}

#[test]
fn request_line_error_comes_first() {
    let r = HttpParser::parse("GET /", &lines(&["broken"]), b"");
    assert_eq!(r.err(), Some(ParseError::MalformedRequestLine));
}

#[test]
fn header_keys_are_lower_case_and_last_wins() {
    let req = HttpParser::parse(
        "get / HTTP/1.0",
        &lines(&["X-Token: a", "x-token: b", "Accept: text/html: more"]),
        b"",
    )
    .unwrap();
    assert_eq!(req.method, "GET");
    assert_eq!(req.http_version, "1.0");
    assert_eq!(req.headers.len(), 2);
    assert_eq!(req.headers.get("x-token"), Some(&"b".to_string()));
    assert_eq!(req.headers.get("accept"), Some(&"text/html: more".to_string()));
    assert!(!req.headers.contains_key("X-Token"));
}

#[test]
fn version_defaults_without_slash() {
    let req = HttpParser::parse("GET / HTTP", &lines(&[]), b"").unwrap();
    assert_eq!(req.http_version, "1.1");
    let req = HttpParser::parse("GET / HTTP/2/x", &lines(&[]), b"").unwrap();
    assert_eq!(req.http_version, "2");
}

#[test]
fn query_pieces_without_equals_are_dropped() {
    let req = HttpParser::parse("GET /a?flag&x=1&y=2=3&x=4 HTTP/1.1", &lines(&[]), b"").unwrap();
    assert_eq!(req.params.len(), 2);
    assert_eq!(req.params.get("x"), Some(&"4".to_string()));
    assert_eq!(req.params.get("y"), Some(&"2=3".to_string()));
    assert!(!req.params.contains_key("flag"));
}

#[test]
fn body_length_reads_the_head() {
    assert_eq!(HttpParser::body_length("POST / HTTP/1.1", &lines(&["Content-Length: 12"])), Ok(12));
    assert_eq!(HttpParser::body_length("GET / HTTP/1.1", &lines(&["Host: a"])), Ok(0));
    assert_eq!(
        HttpParser::body_length("GET / HTTP/1.1", &lines(&["content-length: x"])),
        Err(ParseError::InvalidContentLength)
    );
    assert_eq!(HttpParser::body_length("GET", &lines(&[])), Err(ParseError::MalformedRequestLine));
}
