use knn_ocr::http::{
    head_complete, index_response, not_found_response, ocr_response, parse_request_head, route,
    request_head_from_parse, Headers, HttpErrorKind, RawHead, RequestError, Route,
};
use knn_ocr::numbers::IntErrorKind;

#[test]
fn reads_a_request_head() {
    let buf = b"post /ocr HTTP/1.1\r\nHost: localhost\r\ncontent-length: 784\r\nX-Note: caf\xc3\xa9\r\n\r\n";
    let head = parse_request_head(buf).unwrap();
    assert_eq!(head.method, "POST");
    assert_eq!(head.path, "/ocr");
    assert_eq!(head.content_length, 784);
    assert_eq!(head.headers.len(), 3);
    assert_eq!(head.headers.get(&"HOST".to_string()).map(|s| s.as_str()), Some("localhost"));
    assert_eq!(head.headers.get(&"X-NOTE".to_string()).map(|s| s.as_str()), Some("café"));
    assert_eq!(head.headers.get(&"Host".to_string()), None);
}

#[test]
fn missing_content_length_means_empty_body() {
    let head = parse_request_head(b"GET / HTTP/1.1\r\n\r\n").unwrap();
    assert_eq!(head.method, "GET");
    assert_eq!(head.path, "/");
    assert_eq!(head.content_length, 0);
    assert_eq!(head.headers.len(), 0);
}

#[test]
fn later_header_replaces_earlier() {
    let head = parse_request_head(b"GET / HTTP/1.1\r\nContent-Length: 5\r\nCONTENT-LENGTH: 2\r\n\r\n").unwrap();
    assert_eq!(head.content_length, 2);
    assert_eq!(head.headers.len(), 1);
}

#[test]
fn request_head_errors() {
    assert_eq!(
        parse_request_head(b"GET / HTTP/1.1\r\nContent-Length: ten\r\n\r\n").err(),
        Some(RequestError::BadContentLength(IntErrorKind::InvalidDigit))
    );
    assert_eq!(
        parse_request_head(b"GET / HTTP/1.1\r\nX: \xff\r\n\r\n").err(),
        Some(RequestError::HeaderNotUtf8)
    );
    assert!(matches!(parse_request_head(b"GET / HTTP/1.1\r\nBad Name: 1\r\n\r\n").err(), Some(RequestError::Malformed(_))));
    assert_eq!(
        parse_request_head(b"GET / HTTP/9.9\r\n\r\n").err(),
        Some(RequestError::Malformed(HttpErrorKind::Version))
    );
    assert_eq!(parse_request_head(b"GET").err(), Some(RequestError::NoMethod));
    assert_eq!(parse_request_head(b"GET /").err(), Some(RequestError::NoPath));
}

#[test]
fn too_many_headers_are_malformed() {
    let mut buf = b"GET / HTTP/1.1\r\n".to_vec();
    for i in 0..40 {
        buf.extend(format!("H{i}: v\r\n").as_bytes());
    }
    buf.extend(b"\r\n");
    assert_eq!(parse_request_head(&buf).err(), Some(RequestError::Malformed(HttpErrorKind::TooManyHeaders)));
}

#[test]
fn blank_line_ends_the_head() {
    assert!(head_complete(b"GET / HTTP/1.1\r\n\r\n", 2));
    assert!(!head_complete(b"GET / HTTP/1.1\r\n", 16));
    assert!(!head_complete(b"x\n\n", 2));
}

#[test]
fn routes() {
    let s = |x: &str| x.to_string();
    assert_eq!(route(&s("GET"), &s("/")), Route::Index);
    assert_eq!(route(&s("POST"), &s("/ocr")), Route::Ocr);
    assert_eq!(route(&s("GET"), &s("/ocr")), Route::NotFound);
    assert_eq!(route(&s("POST"), &s("/")), Route::NotFound);
    assert_eq!(route(&s("get"), &s("/")), Route::NotFound);
}

#[test]
fn replies() {
    assert_eq!(index_response(b"<p>hi</p>"), b"HTTP/1.1 200 OK\r\nContent-Length: 9\r\n\r\n<p>hi</p>".to_vec());
    assert_eq!(index_response(b""), b"HTTP/1.1 200 OK\r\nContent-Length: 0\r\n\r\n".to_vec());
    assert_eq!(
        ocr_response(7),
        b"HTTP/1.1 200 OK\r\nContent-Type: text/plain\r\nContent-Length: 3\r\n\r\n7\r\n".to_vec()
    );
    assert_eq!(
        ocr_response(12),
        b"HTTP/1.1 200 OK\r\nContent-Type: text/plain\r\nContent-Length: 3\r\n\r\n12\r\n".to_vec()
    );
    assert_eq!(not_found_response(), b"HTTP/1.1 404 NOT FOUND\r\n".to_vec());
}

#[test]
fn index_reply_length_reads_back() {
    let page = vec![b'a'; 1234];
    let reply = index_response(&page);
    let head_end = reply.windows(4).position(|w| w == b"\r\n\r\n").unwrap() + 4;
    let head = parse_request_head(&[b"GET / HTTP/1.1\r\n".as_slice(), &reply[17..head_end]].concat()).unwrap();
    assert_eq!(head.content_length, page.len());
    assert_eq!(&reply[head_end..], page.as_slice());
}

#[test]
fn headers_map_semantics() {
    let mut h = Headers::new();
    assert_eq!(h.len(), 0);
    h.insert("A".to_string(), "1".to_string());
    h.insert("B".to_string(), "2".to_string());
    h.insert("A".to_string(), "3".to_string());
    assert_eq!(h.len(), 2);
    assert_eq!(h.get(&"A".to_string()).unwrap(), "3");
    assert_eq!(h.get(&"B".to_string()).unwrap(), "2");
    assert!(h.get(&"C".to_string()).is_none());
}

#[test]
fn head_from_parser_output() {
    use_raw_head();
}

fn use_raw_head() {
    let raw = RawHead {
        method: Some("delete".to_string()),
        path: Some("/a b".to_string()),
        fields: vec![
            ("".to_string(), b"ignored \xff".to_vec()),
            ("content-length".to_string(), b"12".to_vec()),
            ("".to_string(), vec![]),
            ("Accept".to_string(), b"*/*".to_vec()),
        ],
    };
    let head = request_head_from_parse(&raw).unwrap();
    assert_eq!(head.method, "DELETE");
    assert_eq!(head.path, "/a b");
    assert_eq!(head.content_length, 12);
    assert_eq!(head.headers.len(), 2);
    assert_eq!(head.headers.get(&"ACCEPT".to_string()).unwrap(), "*/*");

    let no_method = RawHead { method: None, path: None, fields: vec![] };
    assert_eq!(request_head_from_parse(&no_method).err(), Some(RequestError::NoMethod));
    let no_path = RawHead { method: Some("GET".to_string()), path: None, fields: vec![] };
    assert_eq!(request_head_from_parse(&no_path).err(), Some(RequestError::NoPath));
    let bad_value = RawHead {
        method: Some("GET".to_string()),
        path: Some("/".to_string()),
        fields: vec![("X".to_string(), vec![0xc3])],
    };
    assert_eq!(request_head_from_parse(&bad_value).err(), Some(RequestError::HeaderNotUtf8));
    let big = RawHead {
        method: Some("GET".to_string()),
        path: Some("/".to_string()),
        fields: vec![("Content-Length".to_string(), b"99999999999999999999999".to_vec())],
    };
    assert_eq!(
        request_head_from_parse(&big).err(),
        Some(RequestError::BadContentLength(IntErrorKind::PosOverflow))
    );
}

#[test]
fn lowercase_get_routes_to_the_index() {
    let head = parse_request_head(b"get / HTTP/1.1\r\n\r\n").unwrap();
    assert_eq!(head.method, "GET");
    assert_eq!(route(&head.method, &head.path), Route::Index);
}
