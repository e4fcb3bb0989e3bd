use demo_http_server::{HttpProtocol, HttpRequest, HttpVerb};

#[test]
fn test_build_success() {
    let raw_request = b"GET /api/users HTTP/1.1\r\nHost: example.com\r\nUser-Agent: test\r\n\r\n";
    let result = HttpRequest::build(raw_request);

    assert!(result.is_ok());
    let request = result.unwrap();
    assert_eq!(request.verb, HttpVerb::Get);
    assert_eq!(request.path, "/api/users");
    assert_eq!(request.protocol, HttpProtocol::OnePointOne);
    assert_eq!(
        *request.header("Host").unwrap(),
        "example.com".to_string()
    );
    assert_eq!(*request.header("User-Agent").unwrap(), "test".to_string());
    assert_eq!(request.body, None);
}

#[test]
fn test_build_success_with_body() {
    let raw_request =
        b"GET /api/users HTTP/1.1\r\nHost: example.com\r\nContent-Length: 5\r\n\r\nabcde";
    let result = HttpRequest::build(raw_request);

    assert!(result.is_ok());
    let request = result.unwrap();
    assert_eq!(request.verb, HttpVerb::Get);
    assert_eq!(request.path, "/api/users");
    assert_eq!(request.protocol, HttpProtocol::OnePointOne);
    assert_eq!(
        *request.header("Host").unwrap(),
        "example.com".to_string()
    );
    assert_eq!(
        *request.header("Content-Length").unwrap(),
        "5".to_string()
    );
    assert_eq!(request.body.unwrap(), "abcde".to_string());
}

#[test]
fn test_build_failure_invalid_verb() {
    let raw_request = b"BAD /api/users HTTP/1.1\r\nHost: example.com\r\nUser-Agent: test\r\n\r\n";

    let result = HttpRequest::build(raw_request);

    assert!(result.is_err());
}

#[test]
fn test_build_failure_invalid_protocol() {
    let raw_request = b"GET /api/users HTTP/3.9\r\nHost: example.com\r\nUser-Agent: test\r\n\r\n";

    let result = HttpRequest::build(raw_request);

    assert!(result.is_err());
}

#[test]
fn test_build_failure_invalid_content_length() {
    let raw_request =
        b"GET /api/users HTTP/1.1\r\nHost: example.com\r\nContent-Length: hello\r\n\r\n";

    let result = HttpRequest::build(raw_request);

    assert!(result.is_err());
}

#[test]
fn test_build_failure_invalid_content() {
    let raw_request = b"GET /api/users HTTP/1.1\r\nHost: example.com\r\nContent-Length: 5\r\n\r\n";

    let result = HttpRequest::build(raw_request);

    assert!(result.is_err());
}
