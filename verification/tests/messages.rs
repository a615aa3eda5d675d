use rust_server::cookies::parse_cookies;
use rust_server::date::{current_date, date_at, LAST_SECOND};
use rust_server::request::{
    parse_headers, parse_http_request, parse_request, process_chunked_request, walk_chunks,
    HttpMethod,
};
use rust_server::response::{
    create_error_page, process_request, render_current, render_response, HttpResponse,
};
use rust_server::status::StatusCode;
use rust_server::table::TextMap;

#[test]
fn request_is_read() {
    let bytes = b"GET /a%20b HTTP/1.1\r\nHost: example.org\r\nX-A: 1: 2\r\nnothing\r\n\r\n";
    let r = parse_request(bytes).unwrap();
    assert_eq!(r.method, HttpMethod::GET);
    assert_eq!(r.path, "/a%20b");
    assert_eq!(r.headers.len(), 2);
    assert_eq!(r.headers.get("host").unwrap(), "example.org");
    assert_eq!(r.headers.get("x-a").unwrap(), "1: 2");
    assert!(r.body.is_empty());
}

#[test]
fn methods_are_told_apart() {
    for (word, method) in [
        ("GET", HttpMethod::GET),
        ("POST", HttpMethod::POST),
        ("DELETE", HttpMethod::DELETE),
        ("PUT", HttpMethod::UNSUPPORTED),
        ("get", HttpMethod::UNSUPPORTED),
    ] {
        let text = format!("{word} / HTTP/1.1\r\n\r\n");
        assert_eq!(parse_request(text.as_bytes()).unwrap().method, method);
    }
}

#[test]
fn binary_body_is_preserved() {
    let mut bytes = b"POST /upload HTTP/1.1\r\nA: b\r\n\r\n".to_vec();
    let body: Vec<u8> = (0..=255u8).chain(b"\r\n\r\n".iter().copied()).collect();
    bytes.extend_from_slice(&body);
    assert_eq!(parse_request(&bytes).unwrap().body, body);
}

#[test]
fn header_names_are_lowered() {
    let text = "GET / HTTP/1.1\r\nContent-TYPE: X\r\nÉTAT: É\r\n\r\n";
    let r = parse_request(text.as_bytes()).unwrap();
    assert_eq!(r.headers.get("content-type").unwrap(), "X");
    assert_eq!(r.headers.get("état").unwrap(), "É");
}

#[test]
fn later_header_counts() {
    let r = parse_request(b"GET / X\r\nA: 1\r\na: 2\r\n\r\n").unwrap();
    assert_eq!(r.headers.len(), 1);
    assert_eq!(r.headers.get("a").unwrap(), "2");
}

#[test]
fn bad_requests_are_not_read() {
    assert!(parse_request(b"").is_none());
    assert!(parse_request(b"GET / HTTP/1.1\r\n").is_none());
    assert!(parse_request(b"GET /\r\n\r\n").is_none());
    assert!(parse_request(b"GET / HTTP/1.1 x\r\n\r\n").is_none());
    assert!(parse_request(b"GET /\xff HTTP/1.1\r\n\r\n").is_none());
    assert!(parse_request(b"\r\n\r\n").is_none());
}

#[test]
fn head_readers_agree() {
    let bytes = b"POST /x HTTP/1.1\r\nHost: h\r\nCookie: a=b\r\n\r\nHidden: 1\r\n\r\nrest";
    let r = parse_request(bytes).unwrap();
    let (start, headers) = parse_headers(bytes).unwrap();
    assert_eq!(&bytes[start..], r.body.as_slice());
    let (line, more) = parse_http_request(bytes, bytes.len()).unwrap();
    assert_eq!(line, "POST /x HTTP/1.1");
    assert_eq!(headers.len(), 2);
    assert_eq!(more.len(), 2);
    for name in ["host", "cookie"] {
        assert_eq!(headers.get(name), r.headers.get(name));
        assert_eq!(more.get(name), r.headers.get(name));
    }
}

#[test]
fn head_readers_agree_on_odd_first_lines() {
    let bytes = b"odd line of four\r\nA: b\r\n\r\nC: d";
    assert!(parse_request(bytes).is_none());
    let (start, headers) = parse_headers(bytes).unwrap();
    let (line, more) = parse_http_request(bytes, bytes.len()).unwrap();
    assert_eq!(&bytes[start..], b"C: d");
    assert_eq!(line, "odd line of four");
    assert_eq!((headers.len(), more.len()), (1, 1));
    assert_eq!(headers.get("a"), more.get("a"));
}

#[test]
fn head_readers_want_text() {
    let bytes = b"GET / HTTP/1.1\r\nA: b\r\n\r\n\xff";
    assert!(parse_request(bytes).is_some());
    assert!(parse_headers(bytes).is_none());
    assert!(parse_http_request(bytes, bytes.len()).is_none());
    assert!(parse_http_request(bytes, bytes.len() - 1).is_some());
    assert!(parse_headers(b"GET / HTTP/1.1\r\nA: b\r\n").is_none());
    let (line, headers) = parse_http_request(b"", 0).unwrap();
    assert_eq!((line.as_str(), headers.len()), ("", 0));
}

#[test]
fn chunked_bodies_are_complete_or_not() {
    assert!(process_chunked_request(b"0\r\n\r\n"));
    assert!(process_chunked_request(b"4\r\nWiki\r\n5\r\npedia\r\n0\r\n\r\n"));
    assert!(process_chunked_request(b" A \r\n0123456789\r\n0\r\n"));
    assert!(!process_chunked_request(b"4\r\nWiki\r\n5\r\npedia\r\n"));
    assert!(!process_chunked_request(b"4\r\nWiki\r\n"));
    assert!(!process_chunked_request(b""));
    assert!(!process_chunked_request(b"xyz\r\n"));
    assert!(!process_chunked_request(b"4"));
    assert!(!process_chunked_request(b"0\xff\r\n"));
}

#[test]
fn chunk_before_a_rest_changes_nothing() {
    for rest in ["", "0\r\n\r\n", "4\r\nWiki\r\n", "x", "2\r\né\r\n0\r\n"] {
        for chunk in ["a", "é€", "\r\n0\r\n\r\n", "0123456789abcdef0"] {
            let data = format!("{:x}\r\n{chunk}\r\n{rest}", chunk.len());
            assert_eq!(walk_chunks(data.as_bytes()), walk_chunks(rest.as_bytes()));
        }
    }
}

#[test]
fn chunks_that_cannot_be_walked_are_told() {
    assert_eq!(walk_chunks("1\r\né\r\n0\r\n".as_bytes()), Some(true));
    assert_eq!(walk_chunks("2\r\né\r\n0\r\n".as_bytes()), Some(true));
    assert_eq!(walk_chunks("1\r\nabcé\r\n".as_bytes()), Some(false));
    assert_eq!(walk_chunks("1\r\nabé\r\n".as_bytes()), None);
    assert_eq!(walk_chunks("2\r\nabcé\r\n".as_bytes()), None);
    assert_eq!(walk_chunks(b"ffffffffffffffff\r\nx"), None);
    assert_eq!(walk_chunks(b"\xff"), Some(false));
}

#[test]
fn cookies_are_read() {
    let mut headers: TextMap<String> = TextMap::new();
    assert_eq!(parse_cookies(&headers).len(), 0);
    headers.insert("cookie".to_string(), "a=1;  b = 2 ; c; d=x=y; a=3; =e".to_string());
    let cookies = parse_cookies(&headers);
    assert_eq!(cookies.len(), 4);
    assert_eq!(cookies.get("a").unwrap(), "3");
    assert_eq!(cookies.get("b ").unwrap(), " 2");
    assert_eq!(cookies.get("d").unwrap(), "x=y");
    assert_eq!(cookies.get("").unwrap(), "e");
}

#[test]
fn status_lines_and_numbers() {
    for (status, n, line) in [
        (StatusCode::OK, 200, "200 OK"),
        (StatusCode::BadRequest, 400, "400 Bad Request"),
        (StatusCode::Forbidden, 403, "403 Forbidden"),
        (StatusCode::NotFound, 404, "404 Not Found"),
        (StatusCode::MethodNotAllowed, 405, "405 Method Not Allowed"),
        (StatusCode::PayloadTooLarge, 413, "413 Payload Too Large"),
        (StatusCode::InternalServerError, 500, "500 Internal Server Error"),
    ] {
        assert_eq!(status.code(), n);
        assert_eq!(StatusCode::to_string(&status), line);
    }
}

#[test]
fn dates_are_written() {
    assert_eq!(date_at(0), "Thu, 01 Jan 1970 00:00:00 GMT");
    assert_eq!(date_at(784111777), "Sun, 06 Nov 1994 08:49:37 GMT");
    assert_eq!(date_at(253402300800), "Sat, 01 Jan +10000 00:00:00 GMT");
    let last = chrono::DateTime::<chrono::Utc>::MAX_UTC;
    assert_eq!(last.timestamp(), LAST_SECOND);
    assert_eq!(date_at(LAST_SECOND), last.format("%a, %d %b %Y %H:%M:%S GMT").to_string());
}

#[test]
fn current_date_lies_between_two_readings_of_the_clock() {
    let before = chrono::Utc::now().timestamp();
    let date = current_date();
    let after = chrono::Utc::now().timestamp();
    assert!((before..=after).any(|s| date_at(s) == date));
}

#[test]
fn response_is_written() {
    let mut r = HttpResponse::html(StatusCode::NotFound, "<p>é</p>".to_string());
    r.set_header("X-One", "1".to_string());
    r.set_header("X-Two", "2".to_string());
    r.set_header("X-One", "3".to_string());
    assert_eq!(
        render_response(&r, "today"),
        "HTTP/1.1 404 Not Found\r\nServer: RustServer/1.0\r\nDate: today\r\n\
         Content-Type: text/html; charset=utf-8\r\nContent-Length: 9\r\n\
         X-One: 3\r\nX-Two: 2\r\n\r\n<p>é</p>"
    );
}

#[test]
fn response_parts_are_told() {
    let r = HttpResponse::html(StatusCode::OK, "a\r\n\r\nb€".to_string());
    let sent = render_current(&r);
    let (head, body) = sent.split_once("\r\n\r\n").unwrap();
    assert_eq!(body, "a\r\n\r\nb€");
    assert!(head.contains(&format!("\r\nContent-Length: {}", body.len())));
    assert!(head.starts_with("HTTP/1.1 200 OK\r\nServer: RustServer/1.0\r\nDate: "));
    assert!(head.contains(" GMT\r\n"));
}

#[test]
fn error_pages_are_made() {
    let r = create_error_page(StatusCode::NotFound);
    assert_eq!(r.status, StatusCode::NotFound);
    assert_eq!(r.content_type, "text/html; charset=utf-8");
    assert_eq!(
        r.body,
        "<html><head><title>Error 404</title></head><body><h1>404 Not Found</h1>\
         <p>The requested resource could not be found.</p></body></html>"
    );
    for (status, text) in [
        (StatusCode::OK, ""),
        (StatusCode::BadRequest, "The request could not be understood by the server."),
        (StatusCode::Forbidden, "You don't have permission to access this resource."),
        (
            StatusCode::MethodNotAllowed,
            "The requested method is not allowed for this resource.",
        ),
        (StatusCode::PayloadTooLarge, "The request payload is too large."),
        (StatusCode::InternalServerError, "An internal server error occurred."),
    ] {
        assert!(create_error_page(status).body.contains(&format!("<p>{text}</p>")));
    }
}

#[test]
fn any_complete_request_is_acknowledged() {
    for bytes in [&b"GET / HTTP/1.1\r\n\r\n"[..], &b"\xff"[..], &b""[..]] {
        let r = process_request(bytes);
        assert_eq!(r.status, StatusCode::OK);
        assert_eq!(
            r.body,
            "<html><body><h1>Hello from Rust Server!</h1><p>Your request was received.</p></body></html>"
        );
    }
}
