use my_http_server::byte_map::ByteMap;
use my_http_server::handler::StaticHandler;
use my_http_server::reader::{get_content_length, BodyReader, HeadReader, HeadStep, HttpSettings};
use my_http_server::request::{
    parse_body, parse_headers, parse_multipart_form, parse_parameters, parse_query, HttpError,
    HttpMethod, HttpRequest, HttpVersion,
};
use my_http_server::response::{HttpResponse, HttpStatus};

fn entries(m: &ByteMap) -> Vec<(Vec<u8>, Vec<u8>)> {
    let mut out = Vec::new();
    for i in 0..m.len() {
        let (k, v) = m.entry(i);
        out.push((k.clone(), v.clone()));
    }
    out
}

fn pairs(items: &[(&str, &str)]) -> Vec<(Vec<u8>, Vec<u8>)> {
    items.iter().map(|(k, v)| (k.as_bytes().to_vec(), v.as_bytes().to_vec())).collect()
}

fn small_settings() -> HttpSettings {
    HttpSettings {
        max_header_size: 64,
        max_body_size: 16,
        header_buffer: 8,
        body_buffer: 4,
        header_read_attempts: 2,
        body_read_attempts: 1,
    }
}

#[test]
fn method_tokens_decode() {
    assert_eq!(HttpMethod::from_token(b"OPTIONS"), HttpMethod::Options);
    assert_eq!(HttpMethod::from_token(b"GET"), HttpMethod::Get);
    assert_eq!(HttpMethod::from_token(b"POST"), HttpMethod::Post);
    assert_eq!(HttpMethod::from_token(b"get"), HttpMethod::Unknown);
    assert_eq!(HttpMethod::from_token(b"DELETE"), HttpMethod::Unknown);
    assert_eq!(HttpMethod::from_token(b""), HttpMethod::Unknown);
}

#[test]
fn version_tokens_decode() {
    assert_eq!(HttpVersion::from_token(b"HTTP/1.1"), HttpVersion::V1_1);
    assert_eq!(HttpVersion::from_token(b"HTTP/2.0"), HttpVersion::V2_0);
    assert_eq!(HttpVersion::from_token(b"HTTP/1.0"), HttpVersion::Unknown);
}

#[test]
fn query_pairs_parse() {
    let m = parse_parameters(b"a=1&b=2");
    assert_eq!(entries(&m), pairs(&[("a", "1"), ("b", "2")]));
}

#[test]
fn bare_key_has_empty_value() {
    let m = parse_parameters(b"a");
    assert_eq!(entries(&m), pairs(&[("a", "")]));
}

#[test]
fn parameters_trim_lower_and_last_wins() {
    let m = parse_parameters(b" Key = x &key=y&z=1=2");
    assert_eq!(entries(&m), pairs(&[("key", "y"), ("z", "1=2")]));
}

#[test]
fn query_of_url() {
    assert_eq!(entries(&parse_query(b"/p?x=1&y")), pairs(&[("x", "1"), ("y", "")]));
    assert_eq!(entries(&parse_query(b"/p")), pairs(&[]));
}

#[test]
fn header_keys_ignore_case() {
    let a = parse_headers(b"GET / HTTP/1.1\r\nContent-Type: text/html\r\n\r\n");
    let b = parse_headers(b"GET / HTTP/1.1\r\ncontent-type: text/html\r\n\r\n");
    assert_eq!(entries(&a), entries(&b));
    assert_eq!(a.get(b"content-type").unwrap(), &b"text/html".to_vec());
}

#[test]
fn headers_skip_malformed_and_last_wins() {
    let h = parse_headers(b"GET / HTTP/1.1\r\nX: 1\r\nnocolon\r\nx:  2 \r\nHost: a:b\r\n\r\n");
    assert_eq!(entries(&h), pairs(&[("host", "a:b"), ("x", "2")]));
}

#[test]
fn multipart_single_part() {
    let body = b"--X\r\nContent-Disposition: form-data; name=\"file\"\r\n\r\nhello\r\n--X--\r\n";
    let m = parse_multipart_form(body, b"X").unwrap();
    assert_eq!(entries(&m), pairs(&[("file", "hello")]));
}

#[test]
fn multipart_two_parts_and_content_type_line() {
    let body = b"pre\r\n--B\r\nContent-Disposition: form-data; name=\"A\"\r\n\r\n1\r\n--B\r\nContent-Disposition: form-data; name=\"b\"; filename=\"f.txt\"\r\nContent-Type: text/plain\r\n\r\nxyz\r\n--B--\r\n";
    let m = parse_multipart_form(body, b"B").unwrap();
    assert_eq!(entries(&m), pairs(&[("a", "1"), ("b", "xyz")]));
}

#[test]
fn multipart_missing_name_fails() {
    let body = b"--X\r\nContent-Disposition: form-data\r\n\r\nhello\r\n--X--\r\n";
    assert_eq!(parse_multipart_form(body, b"X").err(), Some(HttpError::MissingPartName));
}

#[test]
fn multipart_missing_value_fails() {
    let body = b"--X\r\nContent-Disposition: form-data; name=\"f\"\r\n";
    assert_eq!(parse_multipart_form(body, b"X").err(), Some(HttpError::CorruptedPart));
}

#[test]
fn body_dispatch_by_content_type() {
    let mut h = ByteMap::new();
    h.insert(b"content-type".to_vec(), b"Application/X-WWW-Form-Urlencoded".to_vec());
    assert_eq!(entries(&parse_body(&h, b"q=1").unwrap()), pairs(&[("q", "1")]));
    assert_eq!(parse_body(&h, &[0xff, 0x3d]).err(), Some(HttpError::InvalidUtf8));

    let mut h = ByteMap::new();
    h.insert(b"content-type".to_vec(), b"multipart/form-data".to_vec());
    assert_eq!(parse_body(&h, b"x").err(), Some(HttpError::MissingBoundary));

    let mut h = ByteMap::new();
    h.insert(b"content-type".to_vec(), b"multipart/form-data; boundary=Zz".to_vec());
    let body = b"--Zz\r\nContent-Disposition: form-data; name=\"k\"\r\n\r\nv\r\n--Zz--\r\n";
    assert_eq!(entries(&parse_body(&h, body).unwrap()), pairs(&[("k", "v")]));

    let h = ByteMap::new();
    assert_eq!(entries(&parse_body(&h, b"raw").unwrap()), pairs(&[("__raw", "raw")]));
    assert_eq!(entries(&parse_body(&h, b"").unwrap()), pairs(&[]));
}

#[test]
fn end_to_end_get() {
    let req = HttpRequest::from("GET /?x=1 HTTP/1.1\r\nHost: h\r\n\r\n", Vec::new(), "127.0.0.1").unwrap();
    assert_eq!(req.method(), &HttpMethod::Get);
    assert_eq!(req.url(), b"/?x=1");
    assert_eq!(req.version(), &HttpVersion::V1_1);
    assert_eq!(req.ip(), "127.0.0.1");
    assert_eq!(entries(req.search_params()), pairs(&[("x", "1")]));
    assert_eq!(entries(req.headers()), pairs(&[("host", "h")]));
    assert_eq!(entries(req.body()), pairs(&[]));
}

#[test]
fn request_line_errors() {
    assert_eq!(HttpRequest::from("", Vec::new(), "ip").err(), Some(HttpError::MissingMethod));
    assert_eq!(HttpRequest::from("GET\r\n\r\n", Vec::new(), "ip").err(), Some(HttpError::MissingUrl));
    assert_eq!(HttpRequest::from("GET /\r\n\r\n", Vec::new(), "ip").err(), Some(HttpError::MissingVersion));
}

#[test]
fn post_form_request() {
    let req = HttpRequest::from(
        "POST /f HTTP/1.1\r\nContent-Type: application/x-www-form-urlencoded\r\nContent-Length: 9\r\n\r\n",
        b"name=ab%2".to_vec(),
        "10.0.0.1",
    )
    .unwrap();
    assert_eq!(req.method(), &HttpMethod::Post);
    assert_eq!(entries(req.body()), pairs(&[("name", "ab%2")]));
    let text = req.body_utf8();
    assert_eq!(text, vec![(b"name".to_vec(), String::from("ab%2"))]);
}

#[test]
fn body_utf8_replaces_invalid_bytes() {
    let req = HttpRequest::from("POST / HTTP/1.1\r\n\r\n", vec![0x61, 0xff], "ip").unwrap();
    assert_eq!(req.body_utf8(), vec![(b"__raw".to_vec(), String::from("a\u{fffd}"))]);
}

#[test]
fn response_wire_form() {
    let r = HttpResponse::new(HttpStatus::Success, None, Some(b"hello".to_vec()));
    assert_eq!(
        r.to_vec(),
        b"HTTP/1.1 200 OK\r\nContent-Type: text/plain\r\nServer: FlapyPan/my-http-server\r\nContent-Length: 5\r\n\r\nhello".to_vec()
    );
}

#[test]
fn response_length_ignores_declared_header() {
    let mut h = ByteMap::new();
    h.insert(b"Content-Length".to_vec(), b"999".to_vec());
    h.insert(b"X-A".to_vec(), b"1".to_vec());
    let r = HttpResponse::new(HttpStatus::BadRequest, Some(h), Some(vec![7u8; 12]));
    let mut expected = b"HTTP/1.1 400 Bad Request\r\nContent-Type: text/plain\r\nServer: FlapyPan/my-http-server\r\nX-A: 1\r\nContent-Length: 12\r\n\r\n".to_vec();
    expected.extend_from_slice(&[7u8; 12]);
    assert_eq!(r.to_vec(), expected);
}

#[test]
fn response_without_body() {
    let r = HttpResponse::not_found(None);
    assert_eq!(
        r.to_vec(),
        b"HTTP/1.1 404 Not Found\r\nContent-Type: text/html\r\nServer: FlapyPan/my-http-server\r\nContent-Length: 0\r\n\r\n".to_vec()
    );
    assert_eq!(HttpStatus::InternalServerError.to_str(), "500 Internal Server Error");
}

#[test]
fn content_length_from_head() {
    assert_eq!(get_content_length(b"POST / HTTP/1.1\r\ncontent-LENGTH: 42\r\n\r\n"), 42);
    assert_eq!(get_content_length(b"POST / HTTP/1.1\r\nContent-Length: x1\r\n\r\n"), 0);
    assert_eq!(get_content_length(b"GET / HTTP/1.1\r\n\r\n"), 0);
    assert_eq!(get_content_length(b"POST / HTTP/1.1\r\nContent-Length: 99999999999999999999999\r\n\r\n"), 0);
}

#[test]
fn default_settings() {
    let s = HttpSettings::new();
    assert_eq!(s.max_header_size, 8192);
    assert_eq!(s.max_body_size, 8192 * 1024);
    assert_eq!(s.header_read_attempts, 3);
}

#[test]
fn head_found_across_reads_with_leftover() {
    let s = small_settings();
    let mut r = HeadReader::new();
    assert!(matches!(r.feed(&s, b"GET / HT"), HeadStep::Continue));
    match r.feed(&s, b"TP/1.1\r\n\r\nab") {
        HeadStep::Done { head, rest } => {
            assert_eq!(head, b"GET / HTTP/1.1\r\n\r\n".to_vec());
            assert_eq!(rest, b"ab".to_vec());
        }
        _ => panic!("expected the header block"),
    }
}

#[test]
fn head_one_byte_over_limit_fails() {
    let s = small_settings();
    let mut r = HeadReader::new();
    let mut block = vec![b'a'; 61];
    block.extend_from_slice(b"\r\n\r\n");
    assert_eq!(block.len(), 65);
    let mut out = None;
    for chunk in block.chunks(8) {
        match r.feed(&s, chunk) {
            HeadStep::Continue => {}
            HeadStep::Done { .. } => panic!("over the limit"),
            HeadStep::Failed { error } => {
                out = Some(error);
                break;
            }
        }
    }
    assert_eq!(out, Some(HttpError::HeaderTooLarge));
}

#[test]
fn short_reads_within_budget_succeed() {
    let s = small_settings();
    let mut r = HeadReader::new();
    assert!(matches!(r.feed(&s, b"GET "), HeadStep::Continue));
    assert!(matches!(r.feed(&s, b"/ "), HeadStep::Continue));
    assert!(matches!(r.feed(&s, b"H\r\n\r\n"), HeadStep::Done { .. }));
}

#[test]
fn short_reads_over_budget_fail() {
    let s = small_settings();
    let mut r = HeadReader::new();
    assert!(matches!(r.feed(&s, b"GET "), HeadStep::Continue));
    assert!(matches!(r.feed(&s, b"/ "), HeadStep::Continue));
    assert!(matches!(
        r.feed(&s, b"H"),
        HeadStep::Failed { error: HttpError::HeaderReadFailed }
    ));
}

#[test]
fn closed_stream_and_bad_utf8_fail() {
    let s = small_settings();
    let mut r = HeadReader::new();
    assert!(matches!(r.feed(&s, b""), HeadStep::Failed { error: HttpError::HeaderReadFailed }));
    let mut r = HeadReader::new();
    assert!(matches!(
        r.feed(&s, &[0xff, b'\r', b'\n', b'\r', b'\n']),
        HeadStep::Failed { error: HttpError::InvalidUtf8 }
    ));
}

#[test]
fn body_over_limit_fails_before_reading() {
    let s = small_settings();
    assert_eq!(BodyReader::start(&s, Vec::new(), 17).err(), Some(HttpError::BodyTooLarge));
    assert!(BodyReader::start(&s, Vec::new(), 16).is_ok());
}

#[test]
fn body_collected_in_chunks() {
    let s = small_settings();
    let mut b = BodyReader::start(&s, b"ab".to_vec(), 9).unwrap();
    assert!(!b.is_complete());
    assert_eq!(b.next_read_len(&s), 4);
    assert_eq!(b.feed(&s, b"cdef"), Ok(()));
    assert_eq!(b.next_read_len(&s), 3);
    assert_eq!(b.feed(&s, b"ghi"), Ok(()));
    assert!(b.is_complete());
    assert_eq!(b.into_body(), b"abcdefghi".to_vec());
}

#[test]
fn body_short_reads_over_budget_fail() {
    let s = small_settings();
    let mut b = BodyReader::start(&s, Vec::new(), 10).unwrap();
    assert_eq!(b.feed(&s, b"a"), Ok(()));
    assert_eq!(b.feed(&s, b""), Err(HttpError::BodyReadFailed));
}

#[test]
fn static_targets_and_types() {
    assert_eq!(StaticHandler::target(b"/"), b"index.html".to_vec());
    assert_eq!(StaticHandler::target(b"/?x=1"), b"index.html".to_vec());
    assert_eq!(StaticHandler::target(b"/app.js?v=2"), b"app.js".to_vec());
    assert_eq!(StaticHandler::content_type(b"a.css"), "text/css");
    assert_eq!(StaticHandler::content_type(b"a.js"), "text/javascript");
    assert_eq!(StaticHandler::content_type(b"a.png"), "text/html");
    let r = StaticHandler::respond(b"/a.css", Some(b"x".to_vec()), None);
    assert_eq!(
        r.to_vec(),
        b"HTTP/1.1 200 OK\r\nContent-Type: text/css\r\nServer: FlapyPan/my-http-server\r\nContent-Length: 1\r\n\r\nx".to_vec()
    );
    let r = StaticHandler::respond(b"/nope", None, Some(b"gone".to_vec()));
    assert!(r.to_vec().starts_with(b"HTTP/1.1 404 Not Found\r\n"));
    assert!(r.to_vec().ends_with(b"\r\n\r\ngone"));
}

#[test]
fn error_messages() {
    assert_eq!(HttpError::CorruptedPart.message(), "corrupted form content");
    assert!(!HttpError::BodyTooLarge.message().is_empty());
}

#[test]
fn content_length_with_plus_sign() {
    assert_eq!(get_content_length(b"POST / HTTP/1.1\r\nContent-Length: +5\r\n\r\n"), 5);
    assert_eq!(get_content_length(b"POST / HTTP/1.1\r\nContent-Length: +\r\n\r\n"), 0);
    assert_eq!(get_content_length(b"POST / HTTP/1.1\r\nContent-Length: ++5\r\n\r\n"), 0);
}

#[test]
fn body_completing_short_read_is_not_counted() {
    let mut s = small_settings();
    s.body_read_attempts = 0;
    let mut b = BodyReader::start(&s, Vec::new(), 3).unwrap();
    assert_eq!(b.next_read_len(&s), 3);
    assert_eq!(b.feed(&s, b"abc"), Ok(()));
    assert!(b.is_complete());
    assert_eq!(b.into_body(), b"abc".to_vec());
}

#[test]
fn body_full_request_reads_are_not_short() {
    let mut s = small_settings();
    s.body_read_attempts = 0;
    let mut b = BodyReader::start(&s, Vec::new(), 6).unwrap();
    assert_eq!(b.feed(&s, b"abcd"), Ok(()));
    assert_eq!(b.next_read_len(&s), 2);
    assert_eq!(b.feed(&s, b"ef"), Ok(()));
    assert!(b.is_complete());
}

#[test]
fn missing_index_is_empty_ok() {
    assert!(StaticHandler::is_index(b"/?q=1"));
    assert!(!StaticHandler::is_index(b"/a.js"));
    let r = StaticHandler::respond(b"/", None, None);
    assert_eq!(
        r.to_vec(),
        b"HTTP/1.1 200 OK\r\nContent-Type: text/html\r\nServer: FlapyPan/my-http-server\r\nContent-Length: 0\r\n\r\n".to_vec()
    );
}

#[test]
fn bad_request_reply_carries_message() {
    let r = HttpResponse::bad_request(HttpError::CorruptedPart);
    assert_eq!(
        r.to_vec(),
        b"HTTP/1.1 400 Bad Request\r\nContent-Type: text/plain\r\nServer: FlapyPan/my-http-server\r\nContent-Length: 22\r\n\r\ncorrupted form content".to_vec()
    );
}

#[test]
fn unicode_keys_are_lower_cased_and_trimmed() {
    let h = parse_headers("GET / HTTP/1.1\r\n\u{a0}Äb: \u{a0}x\u{a0}\r\n\r\n".as_bytes());
    assert_eq!(entries(&h), vec![("äb".as_bytes().to_vec(), b"x".to_vec())]);
    let m = parse_parameters("ÉTÉ=chaud".as_bytes());
    assert_eq!(entries(&m), vec![("été".as_bytes().to_vec(), b"chaud".to_vec())]);
}

#[test]
fn request_line_split_on_any_whitespace() {
    let req = HttpRequest::from("POST\t/x  HTTP/2.0\r\n\r\n", Vec::new(), "ip").unwrap();
    assert_eq!(req.method(), &HttpMethod::Post);
    assert_eq!(req.url(), b"/x");
    assert_eq!(req.version(), &HttpVersion::V2_0);
}

#[test]
fn multipart_name_unicode_lower_case() {
    let body = "--X\r\nContent-Disposition: form-data; name=\"FÜR\"\r\n\r\nv\r\n--X--\r\n";
    let m = parse_multipart_form(body.as_bytes(), b"X").unwrap();
    assert_eq!(entries(&m), vec![("für".as_bytes().to_vec(), b"v".to_vec())]);
}
