use mini_curl::cli::{parse_args, ArgError, CliCommand, ValueFlag};

fn args(a: &[&str]) -> Vec<Vec<u8>> {
    a.iter().map(|s| s.as_bytes().to_vec()).collect()
}

fn fetch(a: &[&str]) -> (String, String, Vec<String>, String, bool) {
    match parse_args(&args(a)) {
        Ok(CliCommand::Fetch(q)) => (
            String::from_utf8(q.method).unwrap(),
            String::from_utf8(q.url).unwrap(),
            q.headers.into_iter().map(|h| String::from_utf8(h).unwrap()).collect(),
            String::from_utf8(q.body).unwrap(),
            q.include_headers,
        ),
        Ok(CliCommand::Help) => panic!("unexpected help"),
        Err(e) => panic!("unexpected error {:?}", e),
    }
}

fn refused(a: &[&str]) -> ArgError {
    match parse_args(&args(a)) {
        Err(e) => e,
        Ok(_) => panic!("should be refused"),
    }
}

#[test]
fn url_alone_is_a_get() {
    assert_eq!(fetch(&["http://h/"]), ("GET".to_string(), "http://h/".to_string(), vec![], String::new(), false));
}

#[test]
fn data_without_method_is_a_post() {
    assert_eq!(fetch(&["-d", "a=1", "http://h/"]).0, "POST");
}

#[test]
fn explicit_method_is_kept_with_data() {
    assert_eq!(fetch(&["-X", "PUT", "-d", "a=1", "http://h/"]).0, "PUT");
    assert_eq!(fetch(&["-d", "a=1", "-X", "PUT", "http://h/"]).0, "PUT");
}

#[test]
fn empty_data_keeps_get() {
    assert_eq!(fetch(&["-d", "", "http://h/"]).0, "GET");
}

#[test]
fn headers_and_flags_are_collected() {
    let (m, u, h, b, i) = fetch(&["-i", "-H", "A: 1", "http://h/x", "-H", "B: 2", "-d", "zz"]);
    assert_eq!(m, "POST");
    assert_eq!(u, "http://h/x");
    assert_eq!(h, vec!["A: 1".to_string(), "B: 2".to_string()]);
    assert_eq!(b, "zz");
    assert!(i);
}

#[test]
fn later_url_replaces_earlier() {
    assert_eq!(fetch(&["http://a/", "http://b/"]).1, "http://b/");
}

#[test]
fn help_wins_over_missing_url() {
    assert!(matches!(parse_args(&args(&["-h"])), Ok(CliCommand::Help)));
    assert!(matches!(parse_args(&args(&["http://h/", "-h"])), Ok(CliCommand::Help)));
}

#[test]
fn option_without_value_is_refused() {
    assert_eq!(refused(&["http://h/", "-H"]), ArgError::MissingValue(ValueFlag::Header));
    assert_eq!(refused(&["http://h/", "-X"]), ArgError::MissingValue(ValueFlag::Method));
    assert_eq!(refused(&["http://h/", "-d"]), ArgError::MissingValue(ValueFlag::Data));
}

#[test]
fn unknown_option_is_refused() {
    assert_eq!(refused(&["http://h/", "-v"]), ArgError::UnknownOption(1));
    assert_eq!(refused(&["--help"]), ArgError::UnknownOption(0));
}

#[test]
fn missing_url_is_refused() {
    assert_eq!(refused(&[]), ArgError::MissingUrl);
    assert_eq!(refused(&["-i", "-d", "x"]), ArgError::MissingUrl);
    assert_eq!(refused(&[""]), ArgError::MissingUrl);
}
