use mini_curl::response::{format_output, parse_content_length, read_response, ReadPhase, ResponseReader};

fn read(stream: &[u8], cap: usize) -> (Vec<u8>, Vec<u8>) {
    let r = read_response(stream, cap);
    (r.header_bytes, r.body_bytes)
}

const OK_RESPONSE: &[u8] = b"HTTP/1.1 200 OK\r\nContent-Length: 5\r\n\r\nhello";

#[test]
fn sized_body_is_read_exactly() {
    for cap in [1usize, 2, 3, 4096] {
        let (h, b) = read(OK_RESPONSE, cap);
        assert_eq!(h, b"HTTP/1.1 200 OK\r\nContent-Length: 5\r\n\r\n".to_vec());
        assert_eq!(b, b"hello".to_vec());
    }
}

#[test]
fn sized_body_stops_at_declared_length() {
    let (h, b) = read(b"HTTP/1.1 200 OK\r\nContent-Length: 3\r\n\r\nhello", 4096);
    assert_eq!(h, b"HTTP/1.1 200 OK\r\nContent-Length: 3\r\n\r\n".to_vec());
    assert_eq!(b, b"hel".to_vec());
}

#[test]
fn close_delimited_body_takes_the_rest() {
    let (h, b) = read(b"HTTP/1.0 200 OK\r\nServer: x\r\n\r\nline one\r\n\r\nline two", 7);
    assert_eq!(h, b"HTTP/1.0 200 OK\r\nServer: x\r\n\r\n".to_vec());
    assert_eq!(b, b"line one\r\n\r\nline two".to_vec());
}

#[test]
fn truncated_body_is_kept_without_error() {
    let (h, b) = read(b"HTTP/1.1 200 OK\r\nContent-Length: 10\r\n\r\nabcd", 4096);
    assert_eq!(h, b"HTTP/1.1 200 OK\r\nContent-Length: 10\r\n\r\n".to_vec());
    assert_eq!(b.len(), 4);
    assert_eq!(b, b"abcd".to_vec());
}

#[test]
fn header_without_terminator_gives_empty_body() {
    let (h, b) = read(b"HTTP/1.1 200 OK\r\nContent-Length: 5\r\n", 16);
    assert_eq!(h, b"HTTP/1.1 200 OK\r\nContent-Length: 5\r\n".to_vec());
    assert!(b.is_empty());
    let (h, b) = read(b"", 16);
    assert!(h.is_empty() && b.is_empty());
}

#[test]
fn zero_length_body_reads_nothing_more() {
    let (h, b) = read(b"HTTP/1.1 204 No Content\r\nContent-Length: 0\r\n\r\nextra", 4096);
    assert_eq!(h, b"HTTP/1.1 204 No Content\r\nContent-Length: 0\r\n\r\n".to_vec());
    assert!(b.is_empty());
}

#[test]
fn content_length_name_is_case_insensitive() {
    assert_eq!(parse_content_length(b"HTTP/1.1 200 OK\r\ncOnTeNt-LeNgTh:   42  \r\n\r\n"), Some(42));
    assert_eq!(parse_content_length(b"HTTP/1.1 200 OK\r\ncontent-length:7\r\n\r\n"), Some(7));
}

#[test]
fn first_content_length_line_decides() {
    assert_eq!(parse_content_length(b"HTTP/1.1 200 OK\r\nContent-Length: 3\r\nContent-Length: 9\r\n\r\n"), Some(3));
    assert_eq!(parse_content_length(b"HTTP/1.1 200 OK\r\nContent-Length: x\r\nContent-Length: 9\r\n\r\n"), None);
}

#[test]
fn content_length_value_edge_cases() {
    assert_eq!(parse_content_length(b"HTTP/1.1 200 OK\r\nX-Content-Length: 3\r\n\r\n"), None);
    assert_eq!(parse_content_length(b"HTTP/1.1 200 OK\r\nContent-Length : 3\r\n\r\n"), None);
    assert_eq!(parse_content_length(b"HTTP/1.1 200 OK\r\nContent-Length: 12:34\r\n\r\n"), Some(12));
    assert_eq!(parse_content_length(b"HTTP/1.1 200 OK\r\nContent-Length: +8\r\n\r\n"), Some(8));
    assert_eq!(parse_content_length(b"HTTP/1.1 200 OK\r\nContent-Length: -8\r\n\r\n"), None);
    assert_eq!(parse_content_length(b"HTTP/1.1 200 OK\r\nContent-Length:\r\n\r\n"), None);
    assert_eq!(parse_content_length(b"HTTP/1.1 200 OK\r\nContent-Length: 99999999999999999999999\r\n\r\n"), None);
    assert_eq!(parse_content_length(b"Content-Length: 5"), Some(5));
    assert_eq!(parse_content_length(b""), None);
}

#[test]
fn reader_steps_through_phases() {
    let mut r = ResponseReader::new();
    let header = b"HTTP/1.1 200 OK\r\nContent-Length: 2\r\n\r\n";
    for (k, byte) in header.iter().enumerate() {
        assert_eq!(r.next_read_len(4096), 1);
        r.feed(&[*byte]);
        assert_eq!(r.is_done(), false, "byte {}", k);
    }
    assert_eq!(r.next_read_len(4096), 2);
    assert_eq!(r.next_read_len(1), 1);
    r.feed(b"o");
    r.feed(b"k");
    assert!(r.is_done());
    assert_eq!(r.next_read_len(4096), 0);
    let resp = r.into_response();
    assert_eq!(resp.header_bytes, header.to_vec());
    assert_eq!(resp.body_bytes, b"ok".to_vec());
    assert_eq!(ReadPhase::Sized(0), ReadPhase::Sized(0));
}

#[test]
fn reader_until_close() {
    let mut r = ResponseReader::new();
    for byte in b"HTTP/1.1 200 OK\r\n\r\n".iter() {
        r.feed(&[*byte]);
    }
    assert_eq!(r.next_read_len(512), 512);
    r.feed(b"abc");
    assert!(!r.is_done());
    r.end_of_stream();
    assert!(r.is_done());
    assert_eq!(r.next_read_len(512), 0);
    assert_eq!(r.into_response().body_bytes, b"abc".to_vec());
}

#[test]
fn output_without_headers_is_the_body() {
    assert_eq!(format_output(OK_RESPONSE, false), b"hello".to_vec());
}

#[test]
fn output_with_headers_is_everything() {
    assert_eq!(format_output(OK_RESPONSE, true), OK_RESPONSE.to_vec());
}

#[test]
fn output_without_separator_is_everything() {
    assert_eq!(format_output(b"HTTP/1.1 200 OK\r\n", false), b"HTTP/1.1 200 OK\r\n".to_vec());
    assert_eq!(format_output(b"", false), Vec::<u8>::new());
    assert_eq!(format_output(b"\r\n\r\n", false), Vec::<u8>::new());
}

#[test]
fn output_splits_at_first_separator() {
    let (h, b) = read(b"HTTP/1.0 200 OK\r\n\r\na\r\n\r\nb", 3);
    let mut all = h.clone();
    all.extend_from_slice(&b);
    assert_eq!(format_output(&all, false), b"a\r\n\r\nb".to_vec());
}
