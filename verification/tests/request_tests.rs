//! Request parsing and serialization tests.

use httpd_core::headers::HeaderMap;
use httpd_core::request::{HttpMethod, HttpRequest, HttpVersion, ParseError, RequestStatusLine};
use httpd_core::response::HttpStatusCode;

#[test]
fn test_parse_valid_request() {
    let request_bytes =
        b"GET / HTTP/1.1\r\nHost: localhost\r\nUser-Agent: curl/7.64.1\r\nAccept: */*\r\n\r\n";

    let request = HttpRequest::parse(request_bytes).unwrap();

    assert_eq!(request.status_line.method, HttpMethod::Get);
    assert_eq!(request.status_line.path, b"/".to_vec());
    assert_eq!(request.status_line.version, HttpVersion::Http1_1);
    assert_eq!(request.headers.get(b"Host").unwrap(), &b"localhost".to_vec());
    assert_eq!(
        request.headers.get(b"User-Agent").unwrap(),
        &b"curl/7.64.1".to_vec()
    );
    assert_eq!(request.headers.get(b"Accept").unwrap(), &b"*/*".to_vec());
    assert!(request.body.is_none());
}

#[test]
fn test_parse_invalid_method() {
    let request_bytes = b"FETCH / HTTP/1.1\r\nHost: localhost\r\n\r\n";

    let result = HttpRequest::parse(request_bytes);
    let mut expected_headers = HeaderMap::new();
    expected_headers.insert(b"Host".to_vec(), b"localhost".to_vec());
    assert_eq!(
        result.unwrap_err(),
        ParseError {
            status: HttpStatusCode::MethodNotAllowed,
            version: HttpVersion::Http1_1,
            headers: expected_headers,
        }
    );
}

#[test]
fn test_parse_invalid_version() {
    let request_bytes = b"GET / HTTP/2.0\r\nHost: localhost\r\n\r\n";

    let result = HttpRequest::parse(request_bytes);
    let mut expected_headers = HeaderMap::new();
    expected_headers.insert(b"Host".to_vec(), b"localhost".to_vec());
    assert_eq!(
        result.unwrap_err(),
        ParseError {
            status: HttpStatusCode::BadRequest,
            version: HttpVersion::Http1_1,
            headers: expected_headers,
        }
    );
}

#[test]
fn test_parse_invalid_target() {
    let request_bytes = b"GET /noexist HTTP/1.1\r\nHost: localhost\r\n\r\n";

    let result = HttpRequest::parse(request_bytes);
    assert!(result.is_ok());
}

#[test]
fn test_parse_malformed_request_line() {
    let request_bytes = b"GET /\r\nHost: localhost\r\n\r\n";

    let result = HttpRequest::parse(request_bytes);
    let mut expected_headers = HeaderMap::new();
    expected_headers.insert(b"Host".to_vec(), b"localhost".to_vec());
    assert_eq!(
        result.unwrap_err(),
        ParseError {
            status: HttpStatusCode::BadRequest,
            version: HttpVersion::Http1_1,
            headers: expected_headers,
        }
    );
}

#[test]
fn test_parse_empty_request() {
    let request_bytes = b"";

    let result = HttpRequest::parse(request_bytes);
    assert_eq!(
        result.unwrap_err(),
        ParseError {
            status: HttpStatusCode::BadRequest,
            version: HttpVersion::Http1_1,
            headers: HeaderMap::new(),
        }
    );
}

#[test]
fn test_parse_request_with_no_headers() {
    let request_bytes = b"GET / HTTP/1.1\r\n\r\n";

    let request = HttpRequest::parse(request_bytes).unwrap();

    assert_eq!(request.status_line.method, HttpMethod::Get);
    assert_eq!(request.status_line.path, b"/".to_vec());
    assert_eq!(request.status_line.version, HttpVersion::Http1_1);
    assert_eq!(request.headers.len(), 0);
}

#[test]
fn test_http_method_display() {
    let methods: Vec<HttpMethod> = vec![
        HttpMethod::Get,
        HttpMethod::Post,
        HttpMethod::Put,
        HttpMethod::Delete,
    ];

    let expected = vec![
        b"GET".to_vec(),
        b"POST".to_vec(),
        b"PUT".to_vec(),
        b"DELETE".to_vec(),
    ];

    assert_eq!(
        methods.iter().map(|m| m.name()).collect::<Vec<Vec<u8>>>(),
        expected
    );
}

#[test]
fn test_http_version_display() {
    let version = HttpVersion::Http1_1;
    let expected = b"HTTP/1.1".to_vec();
    assert_eq!(version.name(), expected);
}

#[test]
fn test_http_request_display_no_body() {
    let status_line = RequestStatusLine {
        method: HttpMethod::Get,
        path: b"/".to_vec(),
        version: HttpVersion::Http1_1,
    };

    let mut headers = HeaderMap::new();
    headers.insert(b"Host".to_vec(), b"localhost".to_vec());
    headers.insert(b"User-Agent".to_vec(), b"curl/7.64.1".to_vec());

    let request = HttpRequest {
        status_line,
        headers,
        body: None,
    };

    let expected = b"GET / HTTP/1.1\r\nHost: localhost\r\nUser-Agent: curl/7.64.1\r\n\r\n".to_vec();

    assert_eq!(request.serialize(), expected);
}

#[test]
fn test_http_request_display_with_body() {
    let status_line = RequestStatusLine {
        method: HttpMethod::Get,
        path: b"/".to_vec(),
        version: HttpVersion::Http1_1,
    };

    let mut headers = HeaderMap::new();
    headers.insert(b"Host".to_vec(), b"localhost".to_vec());
    headers.insert(b"User-Agent".to_vec(), b"curl/7.64.1".to_vec());

    let request = HttpRequest {
        status_line,
        headers,
        body: Some(b"Hello, World!".to_vec()),
    };

    let expected =
        b"GET / HTTP/1.1\r\nHost: localhost\r\nUser-Agent: curl/7.64.1\r\n\r\nHello, World!"
            .to_vec();

    assert_eq!(request.serialize(), expected);
}

#[test]
fn test_parse_content_length_zero_body_absent() {
    let request_bytes = b"POST /files/a.txt HTTP/1.1\r\nContent-Length: 0\r\n\r\n";
    let request = HttpRequest::parse(request_bytes).unwrap();
    assert!(request.body.is_none());
}

#[test]
fn test_parse_body_exact_content_length() {
    let request_bytes = b"POST /files/new.txt HTTP/1.1\r\nContent-Length: 3\r\n\r\nabc";
    let request = HttpRequest::parse(request_bytes).unwrap();
    assert_eq!(request.status_line.method, HttpMethod::Post);
    assert_eq!(request.body.unwrap(), b"abc".to_vec());
}

#[test]
fn test_parse_body_shorter_than_content_length() {
    let request_bytes = b"POST /files/new.txt HTTP/1.1\r\nContent-Length: 9\r\n\r\nabc";
    let result = HttpRequest::parse(request_bytes);
    assert_eq!(result.unwrap_err().status, HttpStatusCode::BadRequest);
}

#[test]
fn test_parse_request_line_four_tokens() {
    let request_bytes = b"GET / HTTP/1.1 extra\r\nHost: localhost\r\n\r\n";
    let result = HttpRequest::parse(request_bytes);
    assert_eq!(result.unwrap_err().status, HttpStatusCode::BadRequest);
}

#[test]
fn test_parse_http_1_0_accepted() {
    let request_bytes = b"GET / HTTP/1.0\r\n\r\n";
    let request = HttpRequest::parse(request_bytes).unwrap();
    assert_eq!(request.status_line.version, HttpVersion::Http1_0);
}

#[test]
fn test_parse_header_without_colon() {
    let request_bytes = b"GET / HTTP/1.1\r\nHost localhost\r\nAccept: text/plain\r\n\r\n";
    let err = HttpRequest::parse(request_bytes).unwrap_err();
    assert_eq!(err.status, HttpStatusCode::BadRequest);
}

#[test]
fn test_parse_serialize_roundtrip() {
    let request_bytes =
        b"GET /files/a.txt HTTP/1.1\r\nHost: localhost\r\nAccept: text/plain\r\n\r\n";
    let request = HttpRequest::parse(request_bytes).unwrap();
    let wire = request.serialize();
    let request2 = HttpRequest::parse(&wire).unwrap();
    assert_eq!(request2.status_line.method, request.status_line.method);
    assert_eq!(request2.status_line.path, request.status_line.path);
    assert_eq!(request2.headers, request.headers);
    assert_eq!(request2.body, request.body);
}
