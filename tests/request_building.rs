use mini_curl::request::{build_request, effective_method, RequestSpec};
use mini_curl::response::read_response;

fn spec(method: &str, host: &str, port: u16, path: &str, headers: &[&str], body: &str) -> RequestSpec {
    RequestSpec {
        method: method.as_bytes().to_vec(),
        host: host.as_bytes().to_vec(),
        port,
        path_query: path.as_bytes().to_vec(),
        headers: headers.iter().map(|h| h.as_bytes().to_vec()).collect(),
        body: body.as_bytes().to_vec(),
    }
}

fn built(s: &RequestSpec) -> String {
    String::from_utf8(build_request(s)).unwrap()
}

#[test]
fn plain_get_request() {
    let s = spec("GET", "example.com", 80, "/", &[], "");
    assert_eq!(
        built(&s),
        "GET / HTTP/1.1\r\nHost: example.com\r\nUser-Agent: curl/1.0\r\nAccept: */*\r\n\r\n"
    );
}

#[test]
fn host_header_keeps_other_ports() {
    let s = spec("GET", "localhost", 8080, "/x?y=1", &[], "");
    assert_eq!(
        built(&s),
        "GET /x?y=1 HTTP/1.1\r\nHost: localhost:8080\r\nUser-Agent: curl/1.0\r\nAccept: */*\r\n\r\n"
    );
}

#[test]
fn host_header_omits_80_and_443_for_any_scheme() {
    assert!(built(&spec("GET", "a", 443, "/", &[], "")).contains("\r\nHost: a\r\n"));
    assert!(built(&spec("GET", "a", 80, "/", &[], "")).contains("\r\nHost: a\r\n"));
    assert!(built(&spec("GET", "a", 8443, "/", &[], "")).contains("\r\nHost: a:8443\r\n"));
    assert!(built(&spec("GET", "a", 0, "/", &[], "")).contains("\r\nHost: a:0\r\n"));
    assert!(built(&spec("GET", "a", 65535, "/", &[], "")).contains("\r\nHost: a:65535\r\n"));
}

#[test]
fn body_gets_content_length_and_follows_blank_line() {
    let s = spec("POST", "h", 80, "/submit", &["X-A: 1", "X-B: 2"], "hello=world");
    assert_eq!(
        built(&s),
        "POST /submit HTTP/1.1\r\nHost: h\r\nUser-Agent: curl/1.0\r\nAccept: */*\r\nX-A: 1\r\nX-B: 2\r\nContent-Length: 11\r\n\r\nhello=world"
    );
}

#[test]
fn custom_headers_are_sent_verbatim_in_order() {
    let s = spec("get", "h", 81, "/", &["B: 2", "A: 1", "Accept: text/html", "B: 2"], "");
    assert_eq!(
        built(&s),
        "get / HTTP/1.1\r\nHost: h:81\r\nUser-Agent: curl/1.0\r\nAccept: */*\r\nB: 2\r\nA: 1\r\nAccept: text/html\r\nB: 2\r\n\r\n"
    );
}

#[test]
fn content_length_counts_bytes() {
    let s = spec("PUT", "h", 80, "/", &[], "é");
    let r = built(&s);
    assert!(r.ends_with("Content-Length: 2\r\n\r\né"));
}

#[test]
fn echoed_request_reproduces_every_section() {
    let s = spec("PATCH", "api.test", 3000, "/v1/items?id=7", &["Authorization: Bearer t", "X-Trace: 9"], "{\"a\":1}");
    let echoed = build_request(&s);
    let text = String::from_utf8(echoed).unwrap();
    let mut lines = text.split("\r\n");
    assert_eq!(lines.next(), Some("PATCH /v1/items?id=7 HTTP/1.1"));
    assert_eq!(lines.next(), Some("Host: api.test:3000"));
    assert_eq!(lines.next(), Some("User-Agent: curl/1.0"));
    assert_eq!(lines.next(), Some("Accept: */*"));
    assert_eq!(lines.next(), Some("Authorization: Bearer t"));
    assert_eq!(lines.next(), Some("X-Trace: 9"));
    assert_eq!(lines.next(), Some("Content-Length: 7"));
    assert_eq!(lines.next(), Some(""));
    assert_eq!(lines.next(), Some("{\"a\":1}"));
    assert_eq!(lines.next(), None);
}

#[test]
fn method_defaults() {
    assert_eq!(effective_method(None, b"x"), b"POST".to_vec());
    assert_eq!(effective_method(None, b""), b"GET".to_vec());
    assert_eq!(effective_method(Some(b"PUT".to_vec()), b"data"), b"PUT".to_vec());
    assert_eq!(effective_method(Some(b"DELETE".to_vec()), b""), b"DELETE".to_vec());
}

#[test]
fn echoed_request_frames_back_into_head_and_body() {
    let s = spec("POST", "h", 8080, "/p", &["X-A: 1"], "a\r\n\r\nb");
    let wire = build_request(&s);
    let r = read_response(&wire, 5);
    assert_eq!(
        String::from_utf8(r.header_bytes).unwrap(),
        "POST /p HTTP/1.1\r\nHost: h:8080\r\nUser-Agent: curl/1.0\r\nAccept: */*\r\nX-A: 1\r\nContent-Length: 6\r\n\r\n"
    );
    assert_eq!(r.body_bytes, b"a\r\n\r\nb".to_vec());

    let s = spec("GET", "h", 80, "/", &[], "");
    let wire = build_request(&s);
    let r = read_response(&wire, 4096);
    assert_eq!(r.header_bytes, wire);
    assert!(r.body_bytes.is_empty());
}
