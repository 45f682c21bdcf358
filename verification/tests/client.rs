use servertime::http::client::{
    content_length, content_length_panics, machine_time, parse_head, prepare_request,
    server_time, to_int, to_int_panics, HttpError, ResponseHead,
};

const HEAD: &[u8] =
    b"HTTP/1.1 200 OK\r\nDate: Sun, 06 Nov 1994 08:49:37 GMT\r\nContent-Length: 12\r\n\r\nbody";

fn head_of(bytes: &[u8]) -> ResponseHead {
    parse_head(bytes).unwrap().unwrap().0
}

#[test]
fn request_asks_for_the_root() {
    assert_eq!(
        prepare_request("example.com"),
        "GET / HTTP/1.1\r\nHost: example.com\r\nConnection: keep-alive\r\nContent-Length: 0\r\n\r\n"
    );
}

#[test]
fn to_int_reads_decimal_digits() {
    assert_eq!(to_int(b"1234"), Some(1234));
    assert_eq!(to_int(b"0"), Some(0));
    assert_eq!(to_int(b""), Some(0));
    assert_eq!(to_int(b"12 "), None);
    assert_eq!(to_int(b" 12"), None);
}

#[test]
fn to_int_panics_on_letters_and_overflow() {
    assert!(to_int_panics(b"12a"));
    assert!(to_int_panics(b"999999999999999999999999"));
    assert!(!to_int_panics(b"1 a"));
    assert!(!to_int_panics(b"42"));
}

#[test]
fn parse_head_reads_status_and_fields() {
    let (head, pos) = parse_head(HEAD).unwrap().unwrap();
    assert_eq!(pos, HEAD.len() - 4);
    assert_eq!(head.status, 200);
    assert_eq!(head.headers.len(), 2);
    assert_eq!(head.headers[0].0, b"date".to_vec());
    assert_eq!(head.headers[0].1, b"Sun, 06 Nov 1994 08:49:37 GMT".to_vec());
    assert_eq!(head.headers[1].0, b"content-length".to_vec());
    assert_eq!(head.headers[1].1, b"12".to_vec());
}

#[test]
fn parse_head_waits_for_the_whole_head() {
    assert!(matches!(parse_head(b"HTTP/1.1 200 OK\r\nDate"), Ok(None)));
    assert!(matches!(parse_head(b""), Ok(None)));
}

#[test]
fn parse_head_rejects_garbage() {
    assert!(matches!(parse_head(b"XYZ\r\n\r\n"), Err(HttpError::InvalidData)));
}

#[test]
fn parse_head_rejects_a_status_out_of_range() {
    assert!(matches!(parse_head(b"HTTP/1.1 099 Odd\r\n\r\n"), Err(HttpError::InvalidData)));
}

#[test]
fn parse_head_rejects_too_many_fields() {
    let mut bytes = b"HTTP/1.1 200 OK\r\n".to_vec();
    for i in 0..17 {
        bytes.extend_from_slice(format!("X-{}: v\r\n", i).as_bytes());
    }
    bytes.extend_from_slice(b"\r\n");
    assert!(matches!(parse_head(&bytes), Err(HttpError::InvalidData)));
}

#[test]
fn header_names_are_lowered() {
    let head = head_of(b"HTTP/1.1 204 No Content\r\nDaTe: x\r\nX-Custom-Name: y\r\n\r\n");
    assert_eq!(head.status, 204);
    assert_eq!(head.headers[0].0, b"date".to_vec());
    assert_eq!(head.headers[1].0, b"x-custom-name".to_vec());
}

#[test]
fn server_time_reads_the_date() {
    let head = head_of(HEAD);
    assert_eq!(server_time(&head), Ok(784_111_777 * 1_000_000_000));
}

#[test]
fn server_time_reads_the_first_date() {
    let head = head_of(
        b"HTTP/1.1 200 OK\r\ndate: Thu, 01 Jan 1970 00:00:10 GMT\r\nDate: Sun, 06 Nov 1994 08:49:37 GMT\r\n\r\n",
    );
    assert_eq!(server_time(&head), Ok(10_000_000_000));
}

#[test]
fn server_time_errors() {
    let none = head_of(b"HTTP/1.1 200 OK\r\nServer: x\r\n\r\n");
    assert_eq!(server_time(&none), Err(HttpError::NotFound));
    let bad = head_of(b"HTTP/1.1 200 OK\r\nDate: not a date\r\n\r\n");
    assert_eq!(server_time(&bad), Err(HttpError::Other));
    let not_utf8 = head_of(b"HTTP/1.1 200 OK\r\nDate: \xff\xfe\r\n\r\n");
    assert_eq!(server_time(&not_utf8), Err(HttpError::InvalidData));
}

#[test]
fn content_length_reads_the_length() {
    let head = head_of(HEAD);
    assert!(!content_length_panics(&head));
    assert_eq!(content_length(&head), Some(12));
    let chunked = head_of(b"HTTP/1.1 200 OK\r\nTransfer-Encoding: chunked\r\n\r\n");
    assert_eq!(content_length(&chunked), None);
    let odd = head_of(b"HTTP/1.1 200 OK\r\nContent-Length: 12a\r\n\r\n");
    assert!(content_length_panics(&odd));
}

#[test]
fn machine_time_is_half_way() {
    assert_eq!(machine_time(10, 5), 8);
    assert_eq!(machine_time(-10, 4), -12);
    assert_eq!(machine_time(0, u128::MAX), -(i128::MAX));
}
