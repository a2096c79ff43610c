use evergreen::fronter::MAX_REDIRECTS;
use evergreen::http1::{BodyPoll, BodyReader, Redirects, Stop};
use evergreen::chunked::{ChunkPoll, ChunkedReader};
use evergreen::http1::{
    body_text, has_header_end, parse_head, response_from_parts, Framing, HttpResponse, LengthReader, READ_MAX,
};
use evergreen::numparse::from_str_radix;
use evergreen::socks::EverError;

fn chars(s: &str) -> Vec<char> {
    s.chars().collect()
}

fn response(status: u16, headers: &[(&str, &[u8])]) -> HttpResponse {
    HttpResponse {
        status,
        headers: headers.iter().map(|(n, v)| (n.as_bytes().to_vec(), v.to_vec())).collect(),
        body: vec![],
    }
}

#[test]
fn head_end_detection() {
    assert!(has_header_end(b"HTTP/1.1 200 OK\r\n\r\n"));
    assert!(has_header_end(b"\r\n\r\nbody"));
    assert!(!has_header_end(b"HTTP/1.1 200 OK\r\n\r"));
    assert!(!has_header_end(b"\r\n\n\r\n"));
    assert!(!has_header_end(b""));
}

#[test]
fn head_parsing() {
    let buf = b"HTTP/1.1 200 OK\r\nContent-Length: 5\r\nX-Thing: a\r\n\r\nhel";
    let r = parse_head(buf).unwrap();
    assert_eq!(r.status, 200);
    assert_eq!(r.headers.len(), 2);
    assert_eq!(r.headers[0].0, b"Content-Length".to_vec());
    assert_eq!(r.headers[0].1, b"5".to_vec());
    assert_eq!(r.body, b"hel".to_vec());
    assert_eq!(r.header(b"content-length").unwrap(), &b"5".to_vec());
    assert_eq!(r.header(b"x-thing").unwrap(), &b"a".to_vec());
    assert!(r.header(b"location").is_none());
    assert_eq!(r.framing(), Framing::Length(5));
    assert!(matches!(parse_head(b"nonsense\r\n\r\n"), Err(EverError::InvalidHttpResponse)));
    assert!(matches!(parse_head(b"HTTP/1.1 200 OK\r\nA: b\r\n"), Err(EverError::InvalidHttpResponse)));
    assert!(matches!(parse_head(b"HTTP/1.1 200 OK\r\nBad\x01Name: b\r\n\r\n"), Err(EverError::InvalidHttpResponse)));
}

#[test]
fn body_framing() {
    assert_eq!(response(200, &[("Transfer-Encoding", b"gzip, chunked")]).framing(), Framing::Chunked);
    assert_eq!(
        response(200, &[("transfer-encoding", b"chunked"), ("Content-Length", b"9")]).framing(),
        Framing::Chunked
    );
    assert_eq!(
        response(200, &[("Transfer-Encoding", b"identity"), ("content-length", b"12")]).framing(),
        Framing::Length(12)
    );
    assert_eq!(response(200, &[("Content-Length", b"+7")]).framing(), Framing::Length(7));
    assert_eq!(response(200, &[]).framing(), Framing::ToEnd);
    assert_eq!(response(200, &[("Content-Length", b"12a")]).framing(), Framing::BadLength);
    assert_eq!(response(200, &[("Content-Length", b" 12")]).framing(), Framing::BadLength);
    assert_eq!(response(200, &[("Content-Length", b"\xc3\xa9")]).framing(), Framing::BadLength);
    // a transfer-encoding that is not readable text counts as absent
    assert_eq!(
        response(200, &[("Transfer-Encoding", b"chunked\xff"), ("Content-Length", b"3")]).framing(),
        Framing::Length(3)
    );
}

#[test]
fn gzip_detection() {
    assert_eq!(response(200, &[("Content-Encoding", b"gzip")]).is_gzip(), Some(true));
    assert_eq!(response(200, &[("content-encoding", b"GZip")]).is_gzip(), Some(true));
    assert_eq!(response(200, &[("Content-Encoding", b"br")]).is_gzip(), Some(false));
    assert_eq!(response(200, &[("Content-Encoding", b"gzip ")]).is_gzip(), Some(false));
    assert_eq!(response(200, &[]).is_gzip(), Some(false));
    assert_eq!(response(200, &[("Content-Encoding", b"g\xc3\xa9")]).is_gzip(), None);
}

#[test]
fn redirect_request() {
    let r = response(302, &[("Location", b"https://script.googleusercontent.com/macros/echo?user=ab&lib=x")]);
    assert_eq!(
        r.redirect().unwrap().unwrap(),
        "GET /macros/echo?user=ab&lib=x HTTP/1.1\r\nHOST: script.googleusercontent.com\r\nAccept-Encoding: gzip\r\nConnection: keep-alive\r\n\r\n"
    );
    let r = response(301, &[("location", b"http://example.com/a/b")]);
    assert_eq!(
        r.redirect().unwrap().unwrap(),
        "GET /a/b HTTP/1.1\r\nHOST: example.com\r\nAccept-Encoding: gzip\r\nConnection: keep-alive\r\n\r\n"
    );
    assert_eq!(response(200, &[("Location", b"http://example.com/")]).redirect().unwrap(), None);
    assert_eq!(response(302, &[]).redirect().unwrap(), None);
    assert!(response(302, &[("Location", b"/relative")]).redirect().is_err());
    assert!(response(302, &[("Location", b"mailto:x@y.z")]).redirect().is_err());
}

#[test]
fn body_as_text() {
    assert_eq!(body_text(b"abc".to_vec()).unwrap(), "abc");
    assert!(matches!(body_text(vec![0xff, 0x00]), Err(EverError::InvalidBody)));
}

#[test]
fn body_by_length() {
    let mut r = LengthReader::new(10, b"abc".to_vec());
    assert_eq!(r.remaining, 7);
    assert_eq!(r.want(), 7);
    r.feed(b"defg");
    assert_eq!(r.want(), 3);
    r.feed(b"hij");
    assert_eq!(r.want(), 0);
    assert_eq!(r.body, b"abcdefghij".to_vec());
    let r = LengthReader::new(2, b"abcd".to_vec());
    assert_eq!(r.remaining, 0);
    assert_eq!(r.body, b"abcd".to_vec());
    let r = LengthReader::new(1_000_000, vec![]);
    assert_eq!(r.want(), READ_MAX);
}

#[test]
fn chunked_complete_body() {
    let mut r = ChunkedReader::new(b"5\r\nhello\r\n6\r\n world\r\n0\r\n\r\n".to_vec());
    assert_eq!(r.poll(), ChunkPoll::Done);
    assert_eq!(r.finish(false).unwrap(), b"hello world".to_vec());
}

#[test]
fn chunked_body_in_pieces() {
    let mut r = ChunkedReader::new(b"5\r\nhel".to_vec());
    assert_eq!(r.poll(), ChunkPoll::More);
    r.feed(b"lo\r");
    assert_eq!(r.poll(), ChunkPoll::More);
    r.feed(b"\nA\r\n0123456789\r\n");
    assert_eq!(r.poll(), ChunkPoll::More);
    r.feed(b"0\r\n\r\n");
    assert_eq!(r.poll(), ChunkPoll::Done);
    assert_eq!(r.finish(true).unwrap(), b"hello0123456789".to_vec());
}

#[test]
fn chunked_size_lines() {
    let mut r = ChunkedReader::new(b" a \r\n0123456789\r\n0\r\n\r\n".to_vec());
    assert_eq!(r.poll(), ChunkPoll::Done);
    assert_eq!(r.finish(false).unwrap(), b"0123456789".to_vec());
    // a size line with an extension is not a number: decoding stops
    let mut r = ChunkedReader::new(b"2\r\nab\r\n3;x=y\r\nabc\r\n".to_vec());
    assert_eq!(r.poll(), ChunkPoll::Done);
    assert_eq!(r.finish(false).unwrap(), b"ab".to_vec());
    let mut r = ChunkedReader::new(b"\xff\r\nab".to_vec());
    assert_eq!(r.poll(), ChunkPoll::Done);
    assert_eq!(r.finish(true).unwrap(), Vec::<u8>::new());
    // an empty size line is never got past
    let mut r = ChunkedReader::new(b"2\r\nab\r\n \r\n1\r\nc\r\n".to_vec());
    assert_eq!(r.poll(), ChunkPoll::Stalled);
    assert_eq!(r.finish(true), None);
}

#[test]
fn chunked_input_stops_early() {
    // a time-out keeps only the complete chunks
    let r = ChunkedReader::new(b"2\r\nab\r\n5\r\nhel".to_vec());
    assert_eq!(r.finish(false).unwrap(), b"ab".to_vec());
    // the end of the stream keeps a chunk whose data is all there
    let r = ChunkedReader::new(b"2\r\nab\r\n5\r\nhello".to_vec());
    assert_eq!(r.finish(true).unwrap(), b"abhello".to_vec());
    // but not one cut short
    let r = ChunkedReader::new(b"2\r\nab\r\n5\r\nhel".to_vec());
    assert_eq!(r.finish(true), None);
    // without a size line the body so far is kept
    let r = ChunkedReader::new(b"2\r\nab\r\n5".to_vec());
    assert_eq!(r.finish(true).unwrap(), b"ab".to_vec());
}

#[test]
fn radix_parsing() {
    assert_eq!(from_str_radix(&chars("ff"), 16), Some(255));
    assert_eq!(from_str_radix(&chars("FF"), 16), Some(255));
    assert_eq!(from_str_radix(&chars("+10"), 10), Some(10));
    assert_eq!(from_str_radix(&chars("0010"), 2), Some(2));
    assert_eq!(from_str_radix(&chars(""), 10), None);
    assert_eq!(from_str_radix(&chars("+"), 10), None);
    assert_eq!(from_str_radix(&chars("-1"), 10), None);
    assert_eq!(from_str_radix(&chars("12"), 2), None);
    assert_eq!(from_str_radix(&chars("18446744073709551615"), 10), Some(usize::MAX));
    assert_eq!(from_str_radix(&chars("18446744073709551616"), 10), None);
    assert_eq!(from_str_radix(&chars("z"), 36), Some(35));
}

#[test]
fn response_parts_checked() {
    let buf = b"HEADbody";
    let hs = |n: &[u8], v: &[u8]| vec![(n.to_vec(), v.to_vec())];
    let r = response_from_parts(buf, 4, Some(204), hs(b"x-a", b"1\t2")).unwrap();
    assert_eq!(r.status, 204);
    assert_eq!(r.body, b"body".to_vec());
    assert!(matches!(response_from_parts(buf, 4, None, vec![]), Err(EverError::InvalidHttpResponse)));
    assert!(matches!(response_from_parts(buf, 4, Some(99), vec![]), Err(EverError::InvalidHttpResponse)));
    assert!(matches!(response_from_parts(buf, 4, Some(1000), vec![]), Err(EverError::InvalidHttpResponse)));
    assert!(response_from_parts(buf, 4, Some(999), vec![]).is_ok());
    assert!(matches!(response_from_parts(buf, 4, Some(200), hs(b"bad name", b"v")), Err(EverError::InvalidHttpResponse)));
    assert!(matches!(response_from_parts(buf, 4, Some(200), hs(b"", b"v")), Err(EverError::InvalidHttpResponse)));
    assert!(matches!(response_from_parts(buf, 4, Some(200), hs(b"ok", b"a\x7fb")), Err(EverError::InvalidHttpResponse)));
    assert!(matches!(response_from_parts(buf, 4, Some(200), hs(b"ok", b"a\nb")), Err(EverError::InvalidHttpResponse)));
    assert!(response_from_parts(buf, 4, Some(200), hs(b"ok", b"caf\xc3\xa9")).is_ok());
}

#[test]
fn chunked_size_line_unicode_space() {
    let mut body = "\u{a0}3\u{2003}\r\n".as_bytes().to_vec();
    body.extend_from_slice(b"abc\r\n0\r\n\r\n");
    let mut r = ChunkedReader::new(body);
    assert_eq!(r.poll(), ChunkPoll::Done);
    assert_eq!(r.finish(false).unwrap(), b"abc".to_vec());
}

#[test]
fn chunked_encoding_reads_back() {
    let pieces: Vec<Vec<u8>> = vec![b"abc".to_vec(), vec![7u8; 26], vec![1u8; 300]];
    let mut wire = Vec::new();
    for p in &pieces {
        wire.extend_from_slice(format!("{:x}\r\n", p.len()).as_bytes());
        wire.extend_from_slice(p);
        wire.extend_from_slice(b"\r\n");
    }
    wire.extend_from_slice(b"0\r\n\r\ntrailing");
    let mut r = ChunkedReader::new(wire);
    assert_eq!(r.poll(), ChunkPoll::Done);
    assert_eq!(r.finish(true).unwrap(), pieces.concat());
}

fn with_body(status: u16, headers: &[(&str, &[u8])], body: &[u8]) -> HttpResponse {
    let mut r = response(status, headers);
    r.body = body.to_vec();
    r
}

const GZIP_HELLO: [u8; 25] = [
    0x1f, 0x8b, 0x08, 0x00, 0x00, 0x00, 0x00, 0x00, 0x00, 0x03, 0xcb, 0x48, 0xcd, 0xc9, 0xc9, 0x07,
    0x00, 0x86, 0xa6, 0x10, 0x36, 0x05, 0x00, 0x00, 0x00,
];

#[test]
fn body_reader_by_length() {
    let resp = with_body(200, &[("Content-Length", b"5")], b"he");
    let mut b = BodyReader::new(&resp);
    assert_eq!(b.poll(), BodyPoll::More(3));
    b.feed(b"llo");
    assert_eq!(b.poll(), BodyPoll::Done);
    assert_eq!(b.finish(None).unwrap().unwrap(), b"hello".to_vec());
    let mut b = BodyReader::new(&resp);
    b.feed(b"l");
    assert!(matches!(b.finish(Some(Stop::Timeout)), Some(Err(EverError::ReadTimeout))));
    let b = BodyReader::new(&resp);
    assert_eq!(b.finish(Some(Stop::Eof)).unwrap().unwrap(), b"he".to_vec());
}

#[test]
fn body_reader_to_end_and_chunked() {
    let resp = with_body(200, &[], b"ab");
    let mut b = BodyReader::new(&resp);
    assert_eq!(b.poll(), BodyPoll::More(READ_MAX));
    b.feed(b"cd");
    assert_eq!(b.finish(Some(Stop::Timeout)).unwrap().unwrap(), b"abcd".to_vec());
    let resp = with_body(200, &[("Transfer-Encoding", b"chunked")], b"3\r\nabc\r\n");
    let mut b = BodyReader::new(&resp);
    assert_eq!(b.poll(), BodyPoll::More(READ_MAX));
    b.feed(b"0\r\n\r\n");
    assert_eq!(b.poll(), BodyPoll::Done);
    assert_eq!(b.finish(None).unwrap().unwrap(), b"abc".to_vec());
    let resp = with_body(200, &[("Transfer-Encoding", b"chunked")], b"5\r\nab");
    let b = BodyReader::new(&resp);
    assert!(b.finish(Some(Stop::Eof)).is_none());
    let resp = with_body(200, &[("Transfer-Encoding", b"chunked")], b" \r\n");
    let mut b = BodyReader::new(&resp);
    assert_eq!(b.poll(), BodyPoll::Stalled);
}

#[test]
fn body_reader_gzip() {
    let resp = with_body(200, &[("Content-Encoding", b"gzip"), ("Content-Length", b"25")], &GZIP_HELLO);
    let b = BodyReader::new(&resp);
    assert_eq!(b.finish(None).unwrap().unwrap(), b"hello".to_vec());
    let resp = with_body(200, &[("Content-Encoding", b"GZIP")], b"not gzip");
    let b = BodyReader::new(&resp);
    assert!(matches!(b.finish(None), Some(Err(EverError::InvalidGzip))));
}

#[test]
fn redirects_are_limited() {
    let r = response(302, &[("Location", b"https://h.example/p?q=1")]);
    let mut red = Redirects::new();
    for _ in 0..MAX_REDIRECTS {
        assert!(red.next(&r).unwrap().unwrap().starts_with("GET /p?q=1 HTTP/1.1\r\nHOST: h.example\r\n"));
    }
    assert_eq!(red.next(&r).unwrap(), None);
    let mut red = Redirects::new();
    assert_eq!(red.next(&response(200, &[])).unwrap(), None);
    assert!(red.next(&response(302, &[("Location", b"/x")])).is_err());
}
