use servertime::http::body::{copy_amount, Body, BodyError, Chunked, Stream};

#[test]
fn chunked_body_hands_out_its_chunks() {
    let buf = b"HTTP/1.1 200 OK\r\n\r\n5\r\nhello\r\n0\r\n\r\n".to_vec();
    let mut c = Chunked::new(buf, 19);
    assert_eq!(c.prepare_next_chunk(), Ok(true));
    assert_eq!(c.next_chunk(), b"hello");
    c.consume(5);
    assert_eq!(c.prepare_next_chunk(), Ok(true));
    assert_eq!(c.next_chunk(), b"");
    // At the end of the body it stays at the end.
    assert_eq!(c.prepare_next_chunk(), Ok(true));
    assert_eq!(c.next_chunk(), b"");
}

#[test]
fn chunked_body_waits_for_more_bytes() {
    let mut c = Chunked::new(b"\r\n5".to_vec(), 2);
    assert_eq!(c.prepare_next_chunk(), Ok(false));
    c.fill(b"\r\nhel");
    assert_eq!(c.prepare_next_chunk(), Ok(true));
    assert_eq!(c.next_chunk(), b"hel");
    c.consume(3);
    assert_eq!(c.prepare_next_chunk(), Ok(false));
    c.fill(b"lo\r\n0\r\n\r\n");
    assert_eq!(c.prepare_next_chunk(), Ok(true));
    assert_eq!(c.next_chunk(), b"lo");
    c.consume(2);
    assert_eq!(c.prepare_next_chunk(), Ok(true));
    assert_eq!(c.next_chunk(), b"");
}

#[test]
fn chunked_body_reads_hex_sizes_and_extensions() {
    let mut c = Chunked::new(b"\r\n\r\nA;name=value\r\n0123456789\r\n0\r\n\r\n".to_vec(), 4);
    assert_eq!(c.prepare_next_chunk(), Ok(true));
    assert_eq!(c.next_chunk(), b"0123456789");
}

#[test]
fn chunked_body_rejects_a_bad_size() {
    let mut c = Chunked::new(b"\r\n\r\nzz\r\n".to_vec(), 4);
    assert_eq!(c.prepare_next_chunk(), Err(BodyError::InvalidChunkSize));
}

#[test]
fn consume_buf_drops_the_front() {
    let mut c = Chunked::new(b"\r\nab".to_vec(), 2);
    c.consume_buf(1);
    c.fill(b"cd");
    assert_eq!(c.prepare_next_chunk(), Ok(false));
}

#[test]
fn stream_hands_out_its_length() {
    let mut s = Stream::new(b"HEADxyz".to_vec(), 4, 5);
    assert_eq!(s.available(), b"xyz");
    assert!(!s.needs_fill());
    s.consume(3);
    assert!(s.needs_fill());
    assert_eq!(s.read_limit(1024), 2);
    assert_eq!(s.read_limit(1), 1);
    s.fill(b"ab");
    assert_eq!(s.available(), b"ab");
    s.consume(2);
    assert!(!s.needs_fill());
    assert_eq!(s.available(), b"");
}

#[test]
fn stream_bypass_and_direct_reads() {
    let mut s = Stream::new(b"HEAD".to_vec(), 4, 10);
    assert!(s.bypass(4096, 1024));
    assert!(!s.bypass(100, 1024));
    s.direct_read(10);
    assert!(!s.bypass(4096, 1024));
    assert!(!s.needs_fill());
}

#[test]
fn copy_amount_stops_when_the_destination_is_full() {
    assert_eq!(copy_amount(5, 10), (5, false));
    assert_eq!(copy_amount(5, 3), (3, true));
    assert_eq!(copy_amount(5, 5), (5, true));
}

#[test]
fn body_of_known_length() {
    let mut b = Body::new(b"HEADabc".to_vec(), 4, Some(3));
    assert_eq!(b.remaining_len(), Some(3));
    assert_eq!(b.needs_fill(), Ok(false));
    assert_eq!(b.chunk(), b"abc");
    b.consume(3);
    assert_eq!(b.needs_fill(), Ok(false));
    assert_eq!(b.chunk(), b"");
}

#[test]
fn chunked_body_through_body() {
    let mut b = Body::new(b"H\r\n\r\n3\r\nab".to_vec(), 5, None);
    assert_eq!(b.remaining_len(), None);
    assert_eq!(b.needs_fill(), Ok(false));
    assert_eq!(b.chunk(), b"ab");
    b.consume(2);
    assert_eq!(b.needs_fill(), Ok(true));
    assert_eq!(b.read_limit(64), 64);
    assert!(!b.bypass(4096, 1));
    assert_eq!(b.fill(b"c\r\n0\r\n\r\n"), Ok(()));
    assert_eq!(b.chunk(), b"c");
    b.consume(1);
    assert_eq!(b.needs_fill(), Ok(false));
    assert_eq!(b.chunk(), b"");
}

#[test]
fn body_reports_a_bad_chunk_size() {
    let mut b = Body::new(b"H\r\n\r\n".to_vec(), 5, None);
    assert_eq!(b.needs_fill(), Ok(true));
    assert_eq!(b.fill(b"x\r\n"), Err(BodyError::InvalidChunkSize));
}

#[test]
fn read_step_copies_what_fits() {
    let mut b = Body::new(b"H\r\n\r\n5\r\nhello\r\n3\r\nabc\r\n0\r\n\r\n".to_vec(), 5, None);
    let mut dest = b">".to_vec();
    assert_eq!(b.needs_fill(), Ok(false));
    // Room for more than the chunk: the read goes on to the next chunk.
    assert_eq!(b.read_step(&mut dest, 6), (5, false));
    assert_eq!(dest, b">hello".to_vec());
    assert_eq!(b.needs_fill(), Ok(false));
    // Room for less than the chunk: the read stops when it is full.
    assert_eq!(b.read_step(&mut dest, 1), (1, true));
    assert_eq!(dest, b">helloa".to_vec());
    assert_eq!(b.read_step(&mut dest, 10), (2, false));
    assert_eq!(dest, b">helloabc".to_vec());
    assert_eq!(b.needs_fill(), Ok(false));
    // At the end of the body nothing is copied and the read stops.
    assert_eq!(b.read_step(&mut dest, 10), (0, true));
    assert_eq!(dest, b">helloabc".to_vec());
}

#[test]
fn read_step_stops_after_one_step_of_a_known_length() {
    let mut b = Body::new(b"HEADabcdef".to_vec(), 4, Some(6));
    let mut dest = Vec::new();
    assert_eq!(b.read_step(&mut dest, 100), (6, true));
    assert_eq!(dest, b"abcdef".to_vec());
    assert_eq!(b.remaining_len(), Some(0));
}

#[test]
fn known_length_body_hands_out_buffer_then_fills() {
    let mut b = Body::new(b"HEADab".to_vec(), 4, Some(5));
    let mut out = Vec::new();
    assert_eq!(b.needs_fill(), Ok(false));
    assert_eq!(b.read_step(&mut out, 1), (1, true));
    assert_eq!(b.read_step(&mut out, 10), (1, true));
    assert_eq!(b.needs_fill(), Ok(true));
    assert_eq!(b.read_limit(100), 3);
    assert_eq!(b.fill(b"cde"), Ok(()));
    assert_eq!(b.read_step(&mut out, 10), (3, true));
    assert_eq!(out, b"abcde".to_vec());
    assert_eq!(b.remaining_len(), Some(0));
    assert_eq!(b.needs_fill(), Ok(false));
    assert_eq!(b.read_step(&mut out, 10), (0, true));
    assert_eq!(out, b"abcde".to_vec());
}

#[test]
fn chunked_body_hands_out_only_the_data() {
    let mut b = Body::new(b"H\r\n\r\n2\r\nab\r\n1\r\nc\r\n3\r\ndef\r\n0\r\n\r\n".to_vec(), 5, None);
    let mut out = Vec::new();
    for _ in 0..10 {
        assert_eq!(b.needs_fill(), Ok(false));
        b.read_step(&mut out, 1);
    }
    assert_eq!(out, b"abcdef".to_vec());
}
