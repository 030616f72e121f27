use mini_curl::url::{parse_url, UrlError};

fn parts(u: &str) -> (String, u16, String) {
    let p = parse_url(u.as_bytes()).ok().expect("url should parse");
    (String::from_utf8(p.host).unwrap(), p.port, String::from_utf8(p.path_query).unwrap())
}

fn error(u: &str) -> UrlError {
    match parse_url(u.as_bytes()) {
        Ok(_) => panic!("url should be refused"),
        Err(e) => e,
    }
}

#[test]
fn http_defaults_to_port_80() {
    assert_eq!(parts("http://example.com/index.html"), ("example.com".to_string(), 80, "/index.html".to_string()));
}

#[test]
fn https_defaults_to_port_443() {
    assert_eq!(parts("https://example.com/a/b"), ("example.com".to_string(), 443, "/a/b".to_string()));
}

#[test]
fn explicit_port_is_used() {
    assert_eq!(parts("http://localhost:8080/api?x=1"), ("localhost".to_string(), 8080, "/api?x=1".to_string()));
    assert_eq!(parts("https://h:80/"), ("h".to_string(), 80, "/".to_string()));
}

#[test]
fn missing_path_becomes_slash() {
    assert_eq!(parts("http://example.com"), ("example.com".to_string(), 80, "/".to_string()));
    assert_eq!(parts("https://example.com:9000"), ("example.com".to_string(), 9000, "/".to_string()));
}

#[test]
fn fragment_is_dropped() {
    assert_eq!(parts("http://example.com/p?q=1#frag"), ("example.com".to_string(), 80, "/p?q=1".to_string()));
    assert_eq!(parts("http://example.com#top"), ("example.com".to_string(), 80, "/".to_string()));
}

#[test]
fn colon_in_path_is_not_a_port() {
    assert_eq!(parts("http://example.com/a:b"), ("example.com".to_string(), 80, "/a:b".to_string()));
}

#[test]
fn port_with_plus_sign_parses_like_std() {
    assert_eq!(parts("http://h:+81/"), ("h".to_string(), 81, "/".to_string()));
}

#[test]
fn other_schemes_are_refused() {
    assert_eq!(error("ftp://example.com/"), UrlError::InvalidScheme);
    assert_eq!(error("example.com"), UrlError::InvalidScheme);
    assert_eq!(error("HTTP://example.com/"), UrlError::InvalidScheme);
    assert_eq!(error(""), UrlError::InvalidScheme);
}

#[test]
fn bad_ports_are_refused() {
    assert_eq!(error("http://h:abc/"), UrlError::InvalidPort);
    assert_eq!(error("http://h:/"), UrlError::InvalidPort);
    assert_eq!(error("http://h:65536/"), UrlError::InvalidPort);
    assert_eq!(error("http://h:-1/"), UrlError::InvalidPort);
    assert_eq!(error("http://h:+/"), UrlError::InvalidPort);
}

#[test]
fn largest_port_is_accepted() {
    assert_eq!(parts("http://h:65535"), ("h".to_string(), 65535, "/".to_string()));
    assert_eq!(parts("http://h:0/x"), ("h".to_string(), 0, "/x".to_string()));
}
