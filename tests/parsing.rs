use demo_http_server::http_request::parse_length;
use demo_http_server::{HttpProtocol, HttpRequest, HttpVerb, ParseError};

fn parse_err(raw: &[u8]) -> ParseError {
    match HttpRequest::build(raw) {
        Ok(r) => panic!("expected an error, got {:?}", r),
        Err(e) => e,
    }
}

#[test]
fn start_line_round_trips_for_each_verb() {
    let lines: [&[u8]; 3] = [
        b"GET /a/b?c=d HTTP/1.1",
        b"POST /submit HTTP/1.1",
        b"PUT /x HTTP/1.1",
    ];
    let verbs = [HttpVerb::Get, HttpVerb::Post, HttpVerb::Put];
    for (line, verb) in lines.iter().zip(verbs.iter()) {
        let mut raw = line.to_vec();
        raw.extend_from_slice(b"\r\n\r\n");
        let request = HttpRequest::build(&raw).unwrap();
        assert_eq!(request.verb, *verb);
        assert_eq!(request.protocol, HttpProtocol::OnePointOne);
        assert!(request.headers.is_empty());
        assert_eq!(request.body, None);
        assert_eq!(request.start_line(), line.to_vec());
    }
}

#[test]
fn non_ascii_path_is_decoded() {
    let request = HttpRequest::build(b"GET /caf\xc3\xa9 HTTP/1.1\r\n\r\n").unwrap();
    assert_eq!(request.path, "/caf\u{e9}");
    assert_eq!(request.start_line(), b"GET /caf\xc3\xa9 HTTP/1.1".to_vec());
}

#[test]
fn unknown_verbs_are_refused() {
    assert_eq!(parse_err(b"BAD / HTTP/1.1\r\n\r\n"), ParseError::InvalidVerb);
    assert_eq!(parse_err(b"get / HTTP/1.1\r\n\r\n"), ParseError::InvalidVerb);
    assert_eq!(parse_err(b"DELETE / HTTP/1.1\r\n\r\n"), ParseError::InvalidVerb);
    assert_eq!(parse_err(b"GETX / HTTP/1.1\r\n\r\n"), ParseError::InvalidVerb);
}

#[test]
fn unknown_protocols_are_refused() {
    assert_eq!(parse_err(b"GET / HTTP/1.0\r\n\r\n"), ParseError::InvalidProtocol);
    assert_eq!(parse_err(b"GET / HTTP/3.9\r\n\r\n"), ParseError::InvalidProtocol);
    assert_eq!(parse_err(b"GET / http/1.1\r\n\r\n"), ParseError::InvalidProtocol);
}

#[test]
fn start_line_needs_exactly_three_tokens() {
    assert_eq!(parse_err(b""), ParseError::MalformedStartLine);
    assert_eq!(parse_err(b"GET /\r\n\r\n"), ParseError::MalformedStartLine);
    assert_eq!(parse_err(b"GET\r\n\r\n"), ParseError::MalformedStartLine);
    assert_eq!(
        parse_err(b"GET / HTTP/1.1 extra\r\n\r\n"),
        ParseError::MalformedStartLine
    );
    assert_eq!(parse_err(b"GET /\xff HTTP/1.1\r\n\r\n"), ParseError::MalformedStartLine);
}

#[test]
fn body_is_exactly_the_declared_bytes() {
    let request =
        HttpRequest::build(b"POST /p HTTP/1.1\r\nContent-Length: 5\r\n\r\nabcdeXYZ").unwrap();
    assert_eq!(request.body, Some("abcde".to_string()));
}

#[test]
fn short_body_is_truncated_not_shortened() {
    assert_eq!(
        parse_err(b"POST /p HTTP/1.1\r\nContent-Length: 5\r\n\r\nabc"),
        ParseError::TruncatedBody
    );
}

#[test]
fn zero_length_body_is_empty_text() {
    let request = HttpRequest::build(b"GET / HTTP/1.1\r\nContent-Length: 0\r\n\r\n").unwrap();
    assert_eq!(request.body, Some(String::new()));
}

#[test]
fn bad_content_lengths_are_refused() {
    assert_eq!(
        parse_err(b"GET / HTTP/1.1\r\nContent-Length: hello\r\n\r\n"),
        ParseError::InvalidContentLength
    );
    assert_eq!(
        parse_err(b"GET / HTTP/1.1\r\nContent-Length: -1\r\n\r\n"),
        ParseError::InvalidContentLength
    );
    assert_eq!(
        parse_err(b"GET / HTTP/1.1\r\nContent-Length: \r\n\r\n"),
        ParseError::InvalidContentLength
    );
    assert_eq!(
        parse_err(b"GET / HTTP/1.1\r\nContent-Length: 99999999999999999999999\r\n\r\n"),
        ParseError::InvalidContentLength
    );
}

#[test]
fn body_must_be_text() {
    assert_eq!(
        parse_err(b"GET / HTTP/1.1\r\nContent-Length: 2\r\n\r\n\xff\xfe"),
        ParseError::InvalidBodyEncoding
    );
}

#[test]
fn header_must_be_text() {
    assert_eq!(
        parse_err(b"GET / HTTP/1.1\r\nN\xffame: v\r\n\r\n"),
        ParseError::InvalidHeaderEncoding
    );
}

#[test]
fn later_header_overrides_earlier() {
    let request = HttpRequest::build(b"GET / HTTP/1.1\r\nA: 1\r\nB: 2\r\nA: 3\r\n\r\n").unwrap();
    assert_eq!(request.header("A").unwrap(), "3");
    assert_eq!(request.header("B").unwrap(), "2");
    assert_eq!(request.header("C"), None);
}

#[test]
fn header_names_are_case_sensitive() {
    let request = HttpRequest::build(b"GET / HTTP/1.1\r\ncontent-length: 3\r\n\r\nabc").unwrap();
    assert_eq!(request.body, None);
    assert_eq!(request.header("Content-Length"), None);
    assert_eq!(request.header("content-length").unwrap(), "3");
}

#[test]
fn lines_without_separator_are_skipped() {
    let request =
        HttpRequest::build(b"GET / HTTP/1.1\r\nnot a header\r\nKey:nospace\r\nA: b: c\r\n\r\n")
            .unwrap();
    assert_eq!(request.headers.len(), 1);
    assert_eq!(request.header("A").unwrap(), "b: c");
}

#[test]
fn bare_line_feeds_end_lines() {
    let request = HttpRequest::build(b"GET /x HTTP/1.1\nHost: h\n\nrest").unwrap();
    assert_eq!(request.path, "/x");
    assert_eq!(request.header("Host").unwrap(), "h");
    assert_eq!(request.body, None);
}

#[test]
fn header_block_may_end_with_the_input() {
    let request = HttpRequest::build(b"GET / HTTP/1.1\r\nHost: h").unwrap();
    assert_eq!(request.header("Host").unwrap(), "h");
}

#[test]
fn lengths_parse_like_unsigned_integers() {
    assert_eq!(parse_length(b"0"), Some(0));
    assert_eq!(parse_length(b"5"), Some(5));
    assert_eq!(parse_length(b"+17"), Some(17));
    assert_eq!(parse_length(b"007"), Some(7));
    assert_eq!(parse_length(b"18446744073709551615"), Some(usize::MAX));
    assert_eq!(parse_length(b"18446744073709551616"), None);
    assert_eq!(parse_length(b""), None);
    assert_eq!(parse_length(b"+"), None);
    assert_eq!(parse_length(b"1 "), None);
    assert_eq!(parse_length(b"1a"), None);
}

#[test]
fn body_length_of_a_head() {
    assert_eq!(
        HttpRequest::body_length(b"POST / HTTP/1.1\r\nContent-Length: 12\r\n\r\n"),
        Ok(12)
    );
    assert_eq!(HttpRequest::body_length(b"GET / HTTP/1.1\r\n\r\n"), Ok(0));
    assert_eq!(
        HttpRequest::body_length(b"BAD / HTTP/1.1\r\n\r\n"),
        Err(ParseError::InvalidVerb)
    );
}

#[test]
fn request_serializes_to_wire_format() {
    let request = HttpRequest {
        verb: HttpVerb::Post,
        protocol: HttpProtocol::OnePointOne,
        path: "/p".to_string(),
        headers: vec![
            ("Host".to_string(), "x".to_string()),
            ("Content-Length".to_string(), "2".to_string()),
        ],
        body: Some("hi".to_string()),
    };
    let bytes = request.to_bytes();
    assert_eq!(
        bytes,
        b"POST /p HTTP/1.1\r\nHost: x\r\nContent-Length: 2\r\n\r\nhi".to_vec()
    );
    let again = HttpRequest::build(&bytes).unwrap();
    assert_eq!(again.headers, request.headers);
    assert_eq!(again.body, request.body);
}

#[test]
fn carriage_return_without_line_feed_stays_in_the_line() {
    assert_eq!(parse_err(b"GET / HTTP/1.1\r"), ParseError::InvalidProtocol);
    let request = HttpRequest::build(b"GET / HTTP/1.1\r\nHost: h\r").unwrap();
    assert_eq!(request.header("Host").unwrap(), "h\r");
}

#[test]
fn start_line_may_end_with_the_input() {
    let request = HttpRequest::build(b"PUT /x HTTP/1.1").unwrap();
    assert_eq!(request.verb, HttpVerb::Put);
    assert_eq!(request.path, "/x");
    assert_eq!(parse_err(b"GET / HTTP/1.0"), ParseError::InvalidProtocol);
    assert_eq!(parse_err(b"get / HTTP/1.1\n"), ParseError::InvalidVerb);
}
