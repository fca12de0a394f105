//! Sandbox, routing, range, framing and compression tests, driven through
//! the public library functions on concrete wire bytes.

use std::io::Read;

use httpd_core::compress::{CompressionMiddleware, HttpEncoding};
use httpd_core::errors::HttpErrorResponse;
use httpd_core::files::{read_file_content, ByteRange, FileReadError, FileReadRequest};
use httpd_core::headers::HeaderMap;
use httpd_core::request::{HttpRequest, HttpVersion};
use httpd_core::response::{ContentNegotiable, HttpResponse, HttpStatusCode};
use httpd_core::router::{
    chunked_handler, echo_handler, file_error_status, not_found_response, plan_file_read,
    range_response, resolve_error_status, root_handler, user_agent_handler, HandlerId, Router,
};
use httpd_core::server::{validate_request_path, ResolveError, ServerContext};
use httpd_core::writer::{send_response, HttpWriter, HttpWritable, WriterError};

fn wire_contains(wire: &[u8], needle: &[u8]) -> bool {
    wire.windows(needle.len()).any(|w| w == needle)
}

#[test]
fn test_echo_scenario() {
    let raw = b"GET /echo/hello HTTP/1.1\r\nHost: x\r\nAccept: text/plain\r\n\r\n";
    let request = HttpRequest::parse(raw).unwrap();
    let router = Router::new();
    let (handler, params) = router.route(&request).unwrap();
    assert_eq!(handler, HandlerId::Echo);
    assert_eq!(params.get(b"text").unwrap(), &b"hello".to_vec());

    let response = echo_handler(&request, &params);
    let wire = send_response(&response).unwrap();
    assert!(wire.starts_with(b"HTTP/1.1 200 OK\r\n"));
    assert!(wire_contains(&wire, b"Content-Type: text/plain\r\n"));
    assert!(wire_contains(&wire, b"Content-Length: 5\r\n"));
    assert!(wire.ends_with(b"\r\n\r\nhello"));
}

#[test]
fn test_negotiated_404_scenario() {
    let raw = b"GET /nope HTTP/1.1\r\nAccept: application/json\r\n\r\n";
    let request = HttpRequest::parse(raw).unwrap();
    let router = Router::new();
    assert!(router.route(&request).is_none());

    let response = not_found_response(&request);
    let wire = send_response(&response).unwrap();
    assert!(wire.starts_with(b"HTTP/1.1 404 Not Found\r\n"));
    assert!(wire_contains(&wire, b"Content-Type: application/json\r\n"));
    assert!(wire.ends_with(b"\r\n\r\n{\"error\": \"Route not found\", \"code\": 404}"));
}

#[test]
fn test_traversal_blocked() {
    // the decoded dot-dot segment is rejected before any filesystem work,
    // so no file outside the root is ever read
    let result = validate_request_path(b"..%2Fetc%2Fpasswd");
    assert_eq!(result.unwrap_err(), ResolveError::Forbidden);
    assert_eq!(
        resolve_error_status(&ResolveError::Forbidden),
        HttpStatusCode::Forbidden
    );
    // an encoded separator without a dot segment is Invalid, served as 404
    let result2 = validate_request_path(b"etc%2Fpasswd");
    assert_eq!(result2.unwrap_err(), ResolveError::Invalid);
    assert_eq!(
        resolve_error_status(&ResolveError::Invalid),
        HttpStatusCode::NotFound
    );
}

#[test]
fn test_dot_segments_forbidden() {
    // a dot-dot that survives decoding is a hard Forbidden
    let result = validate_request_path(b"../etc/passwd");
    assert_eq!(result.unwrap_err(), ResolveError::Forbidden);
    let result = validate_request_path(b"a/./b");
    assert_eq!(result.unwrap_err(), ResolveError::Forbidden);
}

#[test]
fn test_sandbox_rejections() {
    assert_eq!(
        validate_request_path(b"").unwrap_err(),
        ResolveError::Invalid
    );
    assert_eq!(
        validate_request_path(b"%zz").unwrap_err(),
        ResolveError::Invalid
    );
    assert_eq!(
        validate_request_path(b"/etc/passwd").unwrap_err(),
        ResolveError::Forbidden
    );
    assert_eq!(
        validate_request_path(b"a|b").unwrap_err(),
        ResolveError::Invalid
    );
    assert_eq!(
        validate_request_path(b"a\\b").unwrap_err(),
        ResolveError::Invalid
    );
    assert_eq!(
        validate_request_path(b"CON.txt").unwrap_err(),
        ResolveError::Invalid
    );
    assert_eq!(
        validate_request_path(b"name.").unwrap_err(),
        ResolveError::Invalid
    );
    assert_eq!(validate_request_path(b"a.txt").unwrap(), b"a.txt".to_vec());
    assert_eq!(
        validate_request_path(b"a%20b.txt").unwrap(),
        b"a b.txt".to_vec()
    );
}

#[test]
fn test_containment_check() {
    let ctx = ServerContext::new(b"/srv".to_vec(), b"/srv".to_vec());
    assert!(ctx.finish_resolve_read(b"/srv/a.txt".to_vec()).is_ok());
    assert_eq!(
        ctx.finish_resolve_read(b"/etc/passwd".to_vec()).unwrap_err(),
        ResolveError::Forbidden
    );
    let resolved = ctx
        .finish_resolve_write(b"/srv/sub", b"new.txt", false)
        .unwrap();
    assert_eq!(resolved.path(), &b"/srv/sub/new.txt".to_vec());
    assert!(!resolved.exists_flag());
}

#[test]
fn test_range_read_scenario() {
    let raw = b"GET /files/a.bin HTTP/1.1\r\nRange: bytes=2-5\r\n\r\n";
    let request = HttpRequest::parse(raw).unwrap();
    let router = Router::new();
    let (handler, params) = router.route(&request).unwrap();
    assert_eq!(handler, HandlerId::FileHandler);
    let filename = params.get(b"filename").unwrap().clone();
    assert_eq!(filename, b"a.bin".to_vec());

    let range_header = request.headers.get(b"Range").cloned();
    let plan = plan_file_read(&filename, range_header.as_ref());
    let result = read_file_content(&plan, b"0123456789".to_vec()).unwrap();
    assert_eq!(result.total_size, 10);
    assert_eq!(result.range, Some((2, 5)));

    let (start, end) = result.range.unwrap();
    let response = range_response(
        &request.status_line.version,
        b"",
        &filename,
        result,
        start,
        end,
    );
    let wire = send_response(&response).unwrap();
    assert!(wire.starts_with(b"HTTP/1.1 206 Partial Content\r\n"));
    assert!(wire_contains(&wire, b"Content-Length: 4\r\n"));
    assert!(wire_contains(&wire, b"Content-Range: bytes 2-5/10\r\n"));
    assert!(wire.ends_with(b"\r\n\r\n2345"));
}

#[test]
fn test_range_open_ended() {
    let range = ByteRange::from_header(b"bytes=0-").unwrap();
    assert_eq!(range.start, 0);
    assert_eq!(range.end, None);
    let plan = FileReadRequest::Range(b"a.bin".to_vec(), range);
    let result = read_file_content(&plan, b"0123456789".to_vec()).unwrap();
    assert_eq!(result.range, Some((0, 9)));
    assert_eq!(result.body.as_bytes(), &b"0123456789".to_vec());
}

#[test]
fn test_range_start_after_end() {
    let range = ByteRange::from_header(b"bytes=5-2").unwrap();
    let plan = FileReadRequest::Range(b"a.bin".to_vec(), range);
    let err = read_file_content(&plan, b"0123456789".to_vec()).unwrap_err();
    assert_eq!(err, FileReadError::InvalidRange);
    assert_eq!(file_error_status(&err), HttpStatusCode::BadRequest);
}

#[test]
fn test_range_on_empty_file() {
    let range = ByteRange::from_header(b"bytes=0-").unwrap();
    let plan = FileReadRequest::Range(b"a.bin".to_vec(), range);
    let err = read_file_content(&plan, Vec::new()).unwrap_err();
    assert_eq!(err, FileReadError::InvalidRange);
}

#[test]
fn test_range_header_rejects() {
    assert!(ByteRange::from_header(b"bytes=a-b").is_none());
    assert!(ByteRange::from_header(b"byte=0-5").is_none());
    assert!(ByteRange::from_header(b"bytes=5").is_none());
    let r = ByteRange::from_header(b"bytes=12-34").unwrap();
    assert_eq!((r.start, r.end), (12, Some(34)));
}

#[test]
fn test_post_create_scenario() {
    let raw = b"POST /files/new.txt HTTP/1.1\r\nContent-Length: 3\r\n\r\nabc";
    let request = HttpRequest::parse(raw).unwrap();
    let router = Router::new();
    let (handler, params) = router.route(&request).unwrap();
    assert_eq!(handler, HandlerId::FileHandler);
    assert_eq!(params.get(b"filename").unwrap(), &b"new.txt".to_vec());
    assert_eq!(request.body.as_ref().unwrap(), &b"abc".to_vec());

    // the file did not exist, so its creation answers 201
    let response = httpd_core::router::post_success_response(
        &request.status_line.version,
        b"",
        b"new.txt",
        false,
    );
    let wire = send_response(&response).unwrap();
    assert!(wire.starts_with(b"HTTP/1.1 201 Created\r\n"));

    let overwrite = httpd_core::router::post_success_response(
        &request.status_line.version,
        b"",
        b"new.txt",
        true,
    );
    let wire2 = send_response(&overwrite).unwrap();
    assert!(wire2.starts_with(b"HTTP/1.1 200 OK\r\n"));
}

#[test]
fn test_chunked_scenario() {
    let raw = b"GET /chunked/hi HTTP/1.1\r\n\r\n";
    let request = HttpRequest::parse(raw).unwrap();
    let router = Router::new();
    let (handler, params) = router.route(&request).unwrap();
    assert_eq!(handler, HandlerId::Chunked);

    let response = chunked_handler(&request, &params);
    let wire = send_response(&response).unwrap();
    assert!(wire.starts_with(b"HTTP/1.1 200 OK\r\n"));
    assert!(wire_contains(&wire, b"Transfer-Encoding: chunked\r\n"));
    assert!(!wire_contains(&wire, b"Content-Length"));
    assert!(wire.ends_with(b"\r\n\r\n2\r\nhi\r\n0\r\n\r\n"));
}

#[test]
fn test_compression_below_threshold() {
    let raw = b"GET /echo/hi HTTP/1.1\r\nAccept-Encoding: gzip\r\n\r\n";
    let request = HttpRequest::parse(raw).unwrap();
    let router = Router::new();
    let (_, params) = router.route(&request).unwrap();
    let response = echo_handler(&request, &params);
    let wire = send_response(&response).unwrap();
    assert!(!wire_contains(&wire, b"Content-Encoding"));
    assert!(wire.ends_with(b"\r\n\r\nhi"));
}

#[test]
fn test_root_and_user_agent_handlers() {
    let raw = b"GET / HTTP/1.1\r\nUser-Agent: curl/7.64.1\r\n\r\n";
    let request = HttpRequest::parse(raw).unwrap();
    let router = Router::new();
    let (handler, _) = router.route(&request).unwrap();
    assert_eq!(handler, HandlerId::Root);
    let wire = send_response(&root_handler(&request)).unwrap();
    assert!(wire.ends_with(b"\r\n\r\nWelcome to the Rust HTTP Server!"));

    let raw2 = b"GET /user-agent HTTP/1.1\r\nUser-Agent: curl/7.64.1\r\n\r\n";
    let request2 = HttpRequest::parse(raw2).unwrap();
    let wire2 = send_response(&user_agent_handler(&request2)).unwrap();
    assert!(wire_contains(&wire2, b"Content-Length: 11\r\n"));
    assert!(wire2.ends_with(b"\r\n\r\ncurl/7.64.1"));
}

#[test]
fn test_accept_encoding_parsing() {
    let list = HttpEncoding::parse_accept_encoding(b"gzip;q=0.8, deflate;q=0.9, br;q=1.0");
    assert_eq!(list.len(), 3);
    assert_eq!(list[0], (HttpEncoding::Brotli, 1000));
    assert_eq!(list[1], (HttpEncoding::Deflate, 900));
    assert_eq!(list[2], (HttpEncoding::Gzip, 800));

    // a zero quality drops the coding; unknown names never appear
    let list2 = HttpEncoding::parse_accept_encoding(b"gzip;q=0, zstd, deflate");
    assert_eq!(list2, vec![(HttpEncoding::Deflate, 1000)]);

    assert_eq!(
        HttpEncoding::from_encoding_string(b"BR"),
        Some(HttpEncoding::Brotli)
    );
    assert_eq!(HttpEncoding::from_encoding_string(b"zstd"), None);
}

fn big_body() -> Vec<u8> {
    let mut body = Vec::new();
    for i in 0..2048usize {
        body.push((i % 251) as u8);
    }
    body
}

fn plain_response(body: Vec<u8>) -> HttpResponse {
    HttpResponse::with_negotiation(
        HttpStatusCode::Okay,
        HttpVersion::Http1_1,
        b"",
        body,
        None,
        None,
        b"text/plain",
    )
}

#[test]
fn test_gzip_roundtrip() {
    let body = big_body();
    let accept = b"gzip".to_vec();
    let compressed = CompressionMiddleware::apply(plain_response(body.clone()), Some(&accept));
    let wire_body = compressed.body().into_bytes();
    assert_ne!(wire_body, body);
    let mut decoder = libflate::gzip::Decoder::new(&wire_body[..]).unwrap();
    let mut out = Vec::new();
    decoder.read_to_end(&mut out).unwrap();
    assert_eq!(out, body);
}

#[test]
fn test_deflate_roundtrip() {
    let body = big_body();
    let accept = b"deflate".to_vec();
    let compressed = CompressionMiddleware::apply(plain_response(body.clone()), Some(&accept));
    let wire_body = compressed.body().into_bytes();
    assert_ne!(wire_body, body);
    let mut decoder = libflate::deflate::Decoder::new(&wire_body[..]);
    let mut out = Vec::new();
    decoder.read_to_end(&mut out).unwrap();
    assert_eq!(out, body);
}

#[test]
fn test_brotli_roundtrip() {
    let body = big_body();
    let accept = b"br".to_vec();
    let compressed = CompressionMiddleware::apply(plain_response(body.clone()), Some(&accept));
    let wire_body = compressed.body().into_bytes();
    assert_ne!(wire_body, body);
    let mut decoder = brotli::Decompressor::new(&wire_body[..], 4096);
    let mut out = Vec::new();
    decoder.read_to_end(&mut out).unwrap();
    assert_eq!(out, body);
}

#[test]
fn test_gzip_is_deterministic() {
    // same input, same bytes: the fixed header time keeps gzip a function
    // of the body alone
    let body = big_body();
    let accept = b"gzip".to_vec();
    let first = CompressionMiddleware::apply(plain_response(body.clone()), Some(&accept));
    let second = CompressionMiddleware::apply(plain_response(body), Some(&accept));
    assert_eq!(first.body().into_bytes(), second.body().into_bytes());
}

#[test]
fn test_compressed_headers_declare_new_length() {
    let body = big_body();
    let accept = b"gzip".to_vec();
    let compressed = CompressionMiddleware::apply(plain_response(body.clone()), Some(&accept));
    let wire = send_response(&compressed).unwrap();
    assert!(wire_contains(&wire, b"Content-Encoding: gzip\r\n"));
    // the declared length is the compressed length, not the original
    let len = compressed.body().into_bytes().len();
    let header = format!("Content-Length: {}\r\n", len);
    assert!(wire_contains(&wire, header.as_bytes()));
}

#[test]
fn test_writer_normalizes_header_names() {
    // the error response stores a lower-case length name; the writer
    // normalizes it on the wire
    let response = HttpErrorResponse::new(
        HttpStatusCode::NotFound,
        HttpVersion::Http1_1,
        b"",
        None,
        b"missing".to_vec(),
    );
    let wire = send_response(&response).unwrap();
    assert!(wire_contains(&wire, b"Content-Length: 7\r\n"));
    assert!(!wire_contains(&wire, b"content-length"));
}

#[test]
fn test_http_1_0_drops_chunked() {
    // HTTP/1.0 never chunks: the arbiter forces Content-Length framing,
    // and a chunked response without a length is refused loudly rather
    // than emitted malformed
    let raw = b"GET /chunked/hi HTTP/1.0\r\n\r\n";
    let request = HttpRequest::parse(raw).unwrap();
    let router = Router::new();
    let (_, params) = router.route(&request).unwrap();
    let response = chunked_handler(&request, &params);
    assert_eq!(
        send_response(&response).unwrap_err(),
        WriterError::MissingHeader
    );
}

#[test]
fn test_error_bodies_by_accept() {
    let html = HttpErrorResponse::new(
        HttpStatusCode::NotFound,
        HttpVersion::Http1_1,
        b"",
        Some(&b"text/html".to_vec()),
        b"gone".to_vec(),
    );
    let wire = send_response(&html).unwrap();
    assert!(wire.ends_with(b"\r\n\r\n<h1>404 Not Found</h1><p>gone</p>"));

    let octet = HttpErrorResponse::new(
        HttpStatusCode::NotFound,
        HttpVersion::Http1_1,
        b"",
        Some(&b"application/octet-stream".to_vec()),
        b"gone".to_vec(),
    );
    let wire2 = send_response(&octet).unwrap();
    assert!(wire2.ends_with(b"Content-Length: 0\r\n\r\n") || wire2.ends_with(b"\r\n\r\n"));
}

#[test]
fn test_mime_lookup() {
    assert_eq!(
        httpd_core::mime::mime_type_from_extension(b"html"),
        b"text/html".to_vec()
    );
    assert_eq!(
        httpd_core::mime::mime_type_from_extension(b"bin"),
        b"application/octet-stream".to_vec()
    );
    assert!(httpd_core::mime::is_text_extension(b"json"));
    assert!(!httpd_core::mime::is_text_extension(b"png"));
    assert_eq!(
        httpd_core::mime::path_mime_type(b"movie.MP4"),
        b"video/mp4".to_vec()
    );
}

#[test]
fn test_next_request_id_increments() {
    let mut ctx = ServerContext::new(b"/srv".to_vec(), b"/srv".to_vec());
    assert_eq!(ctx.next_request_id(), 0);
    assert_eq!(ctx.next_request_id(), 1);
    assert_eq!(ctx.next_request_id(), 2);
}

#[test]
fn test_should_close() {
    let req = HttpRequest::parse(b"GET / HTTP/1.1\r\nConnection: close\r\n\r\n").unwrap();
    assert!(httpd_core::router::should_close(&req));
    let req2 = HttpRequest::parse(b"GET / HTTP/1.1\r\nConnection: keep-alive\r\n\r\n").unwrap();
    assert!(!httpd_core::router::should_close(&req2));
    let req3 = HttpRequest::parse(b"GET / HTTP/1.1\r\n\r\n").unwrap();
    assert!(!httpd_core::router::should_close(&req3));
}

#[test]
fn test_writer_content_length_mismatch_is_loud() {
    let mut w = HttpWriter::new();
    w.write_status_line(HttpVersion::Http1_1, HttpStatusCode::Okay)
        .unwrap();
    w.write_header(b"Content-Length".to_vec(), b"10".to_vec())
        .unwrap();
    w.finish_headers().unwrap();
    w.write_body(b"abc").unwrap();
    let err = w.complete_write().unwrap_err();
    assert_eq!(
        err,
        WriterError::ContentLengthMismatch {
            declared: 10,
            actual: 3
        }
    );
}

#[test]
fn test_writer_state_machine_rejects_misuse() {
    let mut w = HttpWriter::new();
    assert_eq!(w.write_body(b"abc").unwrap_err(), WriterError::InvalidState);

    let mut w2 = HttpWriter::new();
    w2.write_status_line(HttpVersion::Http1_1, HttpStatusCode::Okay)
        .unwrap();
    assert_eq!(
        w2.write_status_line(HttpVersion::Http1_1, HttpStatusCode::Okay)
            .unwrap_err(),
        WriterError::InvalidState
    );

    let mut w3 = HttpWriter::new();
    w3.write_status_line(HttpVersion::Http1_1, HttpStatusCode::Okay)
        .unwrap();
    w3.finish_headers().unwrap();
    w3.write_body(b"").unwrap();
    // no Content-Length was ever written
    assert_eq!(
        w3.complete_write().unwrap_err(),
        WriterError::MissingHeader
    );
}

#[test]
fn test_percent_decode() {
    assert_eq!(
        httpd_core::server::percent_decode(b"a%20b").unwrap(),
        b"a b".to_vec()
    );
    assert_eq!(
        httpd_core::server::percent_decode(b"%41%62%63").unwrap(),
        b"Abc".to_vec()
    );
    assert!(httpd_core::server::percent_decode(b"a%2").is_none());
    assert!(httpd_core::server::percent_decode(b"a%zz").is_none());
}

#[test]
fn test_find_boundary() {
    assert_eq!(
        HttpRequest::find_boundary(b"GET / HTTP/1.1\r\n\r\nrest"),
        Some(14)
    );
    assert_eq!(HttpRequest::find_boundary(b"GET / HTTP/1.1\r\n"), None);
}

#[test]
fn test_full_read_typing() {
    let plan = FileReadRequest::Full(b"notes.txt".to_vec());
    let result = read_file_content(&plan, b"hello".to_vec()).unwrap();
    assert!(matches!(
        result.body,
        httpd_core::writer::HttpBody::Text(_)
    ));
    assert_eq!(result.total_size, 5);
    assert_eq!(result.range, None);

    let plan2 = FileReadRequest::Full(b"img.png".to_vec());
    let result2 = read_file_content(&plan2, b"hello".to_vec()).unwrap();
    assert!(matches!(
        result2.body,
        httpd_core::writer::HttpBody::Binary(_)
    ));

    // a text extension whose bytes are not valid UTF-8 falls back to binary
    let plan3 = FileReadRequest::Full(b"notes.txt".to_vec());
    let result3 = read_file_content(&plan3, vec![0xFF]).unwrap();
    assert!(matches!(
        result3.body,
        httpd_core::writer::HttpBody::Binary(_)
    ));

    // multi-byte UTF-8 is still text
    let plan4 = FileReadRequest::Full(b"notes.txt".to_vec());
    let result4 = read_file_content(&plan4, vec![0xC3, 0xA9, 0xE2, 0x82, 0xAC]).unwrap();
    assert!(matches!(
        result4.body,
        httpd_core::writer::HttpBody::Text(_)
    ));

    // a truncated multi-byte sequence is not valid UTF-8
    let plan5 = FileReadRequest::Full(b"notes.txt".to_vec());
    let result5 = read_file_content(&plan5, vec![0xE2, 0x82]).unwrap();
    assert!(matches!(
        result5.body,
        httpd_core::writer::HttpBody::Binary(_)
    ));
}

#[test]
fn test_header_map_semantics() {
    let mut m = HeaderMap::new();
    m.insert(b"Host".to_vec(), b"a".to_vec());
    m.insert(b"Host".to_vec(), b"b".to_vec());
    assert_eq!(m.len(), 1);
    assert_eq!(m.get(b"Host").unwrap(), &b"b".to_vec());
    assert_eq!(m.get_ci(b"hOST").unwrap(), &b"b".to_vec());
    assert!(m.get(b"host").is_none());
    m.remove_ci(b"HOST");
    assert_eq!(m.len(), 0);
}
