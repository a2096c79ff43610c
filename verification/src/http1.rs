//! The HTTP/1.1 responses the relay reads: the head, the framing of the body, redirects and
//! compression.
use crate::fronter::{get_head, get_head_text, MAX_REDIRECTS};
use crate::numparse::{digit_value, digits_value, from_str_radix, spec_from_str_radix};
use crate::chunked::{chunk_encode, chunked_body, concat_pieces, lemma_chunked_roundtrip, ChunkPoll, ChunkedReader};
use crate::socks::EverError;
use crate::text::{decimal, digit_char, push_char, push_str};
use vstd::prelude::*;
use vstd::utf8::encode_utf8;

verus! {

broadcast use vstd::std_specs::vec::group_vec_axioms;

/// A response: its status, its headers (name and value bytes, in the order received) and the
/// body bytes read so far.
#[derive(Debug)]
pub struct HttpResponse {
    pub status: u16,
    pub headers: Vec<(Vec<u8>, Vec<u8>)>,
    pub body: Vec<u8>,
}

/// How the body of a response is delimited.
#[derive(Debug, Clone, Copy, PartialEq, Eq, Structural)]
pub enum Framing {
    /// In chunks.
    Chunked,
    /// By a length.
    Length(usize),
    /// By the end of the input.
    ToEnd,
    /// By a length that is not a number; reading such a response is a fatal error.
    BadLength,
}

/// The header views of a response, as name and value sequences.
pub open spec fn header_views(hs: Seq<(Vec<u8>, Vec<u8>)>) -> Seq<(Seq<u8>, Seq<u8>)> {
    hs.map_values(|h: (Vec<u8>, Vec<u8>)| (h.0@, h.1@))
}

/// A byte in ASCII lower case.
pub open spec fn ascii_lower(b: u8) -> u8 {
    if 65 <= b <= 90 {
        (b + 32) as u8
    } else {
        b
    }
}

/// Whether header name `name` is `key` (given in lower case), ignoring ASCII case.
pub open spec fn name_is(name: Seq<u8>, key: Seq<u8>) -> bool {
    name.len() == key.len() && forall|i: int| 0 <= i < name.len() ==> ascii_lower(name[i]) == key[i]
}

/// The index of the first header named `key`.
pub open spec fn find_header(hs: Seq<(Seq<u8>, Seq<u8>)>, key: Seq<u8>) -> Option<int>
    decreases hs.len(),
{
    if hs.len() == 0 {
        None
    } else if name_is(hs[0].0, key) {
        Some(0)
    } else {
        match find_header(hs.drop_first(), key) {
            Some(i) => Some(i + 1),
            None => None,
        }
    }
}

/// The value of the first header named `key`.
pub open spec fn header_value(hs: Seq<(Seq<u8>, Seq<u8>)>, key: Seq<u8>) -> Option<Seq<u8>> {
    match find_header(hs, key) {
        Some(i) => Some(hs[i].1),
        None => None,
    }
}

/// A header value as text, when it holds only tabs and visible ASCII characters.
pub open spec fn visible_text(v: Seq<u8>) -> Option<Seq<char>> {
    if forall|i: int| 0 <= i < v.len() ==> v[i] == 9 || (32 <= v[i] && v[i] < 127) {
        Some(v.map_values(|b: u8| b as char))
    } else {
        None
    }
}

/// Whether `needle` occurs in `hay`.
pub open spec fn occurs_in(hay: Seq<u8>, needle: Seq<u8>) -> bool {
    exists|i: int| 0 <= i && i + needle.len() <= hay.len() && #[trigger] hay.subrange(i, i + needle.len()) == needle
}

/// The bytes of a header name or a word.
pub open spec fn key(s: &str) -> Seq<u8> {
    encode_utf8(s@)
}

/// The framing of a response: chunked when a readable `transfer-encoding` value contains
/// `chunked`, else by a `content-length`, else to the end of the input.
pub open spec fn spec_framing(hs: Seq<(Seq<u8>, Seq<u8>)>) -> Framing {
    let te = match header_value(hs, key("transfer-encoding")) {
        Some(v) => if visible_text(v) is Some {
            v
        } else {
            Seq::empty()
        },
        None => Seq::empty(),
    };
    if occurs_in(te, key("chunked")) {
        Framing::Chunked
    } else {
        match header_value(hs, key("content-length")) {
            None => Framing::ToEnd,
            Some(v) => match visible_text(v) {
                None => Framing::BadLength,
                Some(t) => match spec_from_str_radix(t, 10) {
                    None => Framing::BadLength,
                    Some(n) => Framing::Length(n),
                },
            },
        }
    }
}

/// Whether the body is gzip-compressed: `Some(true)` when the `content-encoding` value is
/// `gzip` in any ASCII case, `None` when that value is not readable text (a fatal error).
pub open spec fn spec_gzip(hs: Seq<(Seq<u8>, Seq<u8>)>) -> Option<bool> {
    match header_value(hs, key("content-encoding")) {
        None => Some(false),
        Some(v) => match visible_text(v) {
            None => None,
            Some(_) => Some(name_is(v, key("gzip"))),
        },
    }
}

/// Whether a status is a redirection (3xx).
pub open spec fn is_redirection(status: u16) -> bool {
    300 <= status < 400
}

/// The parts of a URL: path, query and host, when `reqwest::Url::parse` accepts the text.
pub uninterp spec fn url_parts(s: Seq<char>) -> Option<(Seq<char>, Option<Seq<char>>, Option<Seq<char>>)>;

/// `reqwest::Url::parse`, then `path`, `query` and `host_str` of the result: the parts of
/// `s` as a URL, `None` when it is not one. What the parts are is named, not stated.
#[verifier::external_body]
fn parse_url(s: &str) -> (r: Option<(String, Option<String>, Option<String>)>)
    ensures
        match url_parts(s@) {
            None => r is None,
            Some((p, q, h)) => r matches Some((rp, rq, rh)) && rp@ == p && (match (rq, q) {
                (Some(a), Some(b)) => a@ == b,
                (None, None) => true,
                _ => false,
            }) && (match (rh, h) {
                (Some(a), Some(b)) => a@ == b,
                (None, None) => true,
                _ => false,
            }),
        },
{
    match reqwest::Url::parse(s) {
        Ok(u) => Some(
            (
                u.path().to_string(),
                u.query().map(|q| q.to_string()),
                u.host_str().map(|h| h.to_string()),
            ),
        ),
        Err(_) => None,
    }
}

/// The request that follows a redirect to `location`: `Ok(None)` when the response is no
/// redirect or has no `location`, `Err(())` when the location is not readable text, not a URL
/// or has no host (fatal errors), else the GET request for its path and query on its host.
pub open spec fn spec_redirect(status: u16, hs: Seq<(Seq<u8>, Seq<u8>)>) -> Result<
    Option<Seq<char>>,
    (),
> {
    if !is_redirection(status) {
        Ok(None)
    } else {
        match header_value(hs, key("location")) {
            None => Ok(None),
            Some(v) => match visible_text(v) {
                None => Err(()),
                Some(t) => match url_parts(t) {
                    None => Err(()),
                    Some((p, q, h)) => match h {
                        None => Err(()),
                        Some(host) => {
                            let path = match q {
                                Some(q) => p + seq!['?'] + q,
                                None => p,
                            };
                            Ok(Some(get_head_text(path, host)))
                        },
                    },
                },
            },
        }
    }
}

/// What `httparse::Response::parse` makes of `buf` with room for 64 headers, when it finds a
/// complete head: the length of the head, the status code and the headers (name bytes and value
/// bytes, in order).
pub uninterp spec fn httparse_response(buf: Seq<u8>) -> Option<
    (nat, Option<u16>, Seq<(Seq<u8>, Seq<u8>)>),
>;

/// `httparse::Response::parse` with 64 header slots: `Some` exactly when it reports a complete
/// head, with what it parsed; the head length is at most the input length.
#[verifier::external_body]
fn httparse_head(buf: &[u8]) -> (r: Option<(usize, Option<u16>, Vec<(Vec<u8>, Vec<u8>)>)>)
    ensures
        match httparse_response(buf@) {
            None => r is None,
            Some((n, code, hs)) => r matches Some((m, c, v)) && m == n && c == code
                && header_views(v@) == hs,
        },
        r matches Some((m, _, _)) ==> m <= buf@.len(),
{
    let mut headers = [httparse::EMPTY_HEADER; 64];
    let mut resp = httparse::Response::new(&mut headers);
    match resp.parse(buf) {
        Ok(httparse::Status::Complete(n)) => Some(
            (
                n,
                resp.code,
                resp.headers.iter().map(|h| (h.name.as_bytes().to_vec(), h.value.to_vec())).collect(),
            ),
        ),
        _ => None,
    }
}

/// Whether `http::HeaderName::from_bytes` accepts `name`.
pub uninterp spec fn http_header_name_ok(name: Seq<u8>) -> bool;

/// `http::HeaderName::from_bytes`: whether `name` is a valid header name; what it accepts
/// is named, not stated.
#[verifier::external_body]
fn header_name_valid(name: &[u8]) -> (r: bool)
    ensures
        r == http_header_name_ok(name@),
{
    match http::HeaderName::from_bytes(name) {
        Ok(_) => true,
        Err(_) => false,
    }
}

/// Whether `http::HeaderValue::from_bytes` accepts a value: every byte a tab, or at least 32
/// and not 127.
pub open spec fn header_value_ok(v: Seq<u8>) -> bool {
    forall|i: int| 0 <= i < v.len() ==> (v[i] >= 32 && v[i] != 127) || v[i] == 9
}

/// `http::HeaderValue::from_bytes`: whether `value` is a valid header value.
#[verifier::external_body]
fn header_value_valid(value: &[u8]) -> (r: bool)
    ensures
        r == header_value_ok(value@),
{
    match http::HeaderValue::from_bytes(value) {
        Ok(_) => true,
        Err(_) => false,
    }
}

/// `http::StatusCode::from_u16`: whether `code` is a status code, that is from 100 to 999.
#[verifier::external_body]
pub(crate) fn status_valid(code: u16) -> (r: bool)
    ensures
        r == (100 <= code <= 999),
{
    match http::StatusCode::from_u16(code) {
        Ok(_) => true,
        Err(_) => false,
    }
}

/// Whether every header of `hs` has a name and a value that the response builder accepts.
pub open spec fn headers_ok(hs: Seq<(Seq<u8>, Seq<u8>)>) -> bool {
    forall|i: int| 0 <= i < hs.len() ==> header_ok(#[trigger] hs[i])
}

/// Whether the response builder accepts a header.
pub open spec fn header_ok(h: (Seq<u8>, Seq<u8>)) -> bool {
    http_header_name_ok(h.0) && header_value_ok(h.1)
}

/// The end of a response head, an empty line.
pub open spec fn head_end() -> Seq<u8> {
    seq![13u8, 10u8, 13u8, 10u8]
}

/// Whether a complete head has arrived: `buf` holds an empty line.
pub fn has_header_end(buf: &[u8]) -> (r: bool)
    ensures
        r == occurs_in(buf@, head_end()),
{
    let end: [u8; 4] = [13, 10, 13, 10];
    assert(end@ =~= head_end());
    occurs(buf, end.as_slice())
}

/// The response built from a parsed head: an invalid response when the status code is missing
/// or out of range, or when a header is not accepted; else the status, the headers and, as the
/// start of the body, the bytes of `buf` after the head.
pub fn response_from_parts(
    buf: &[u8],
    head_len: usize,
    code: Option<u16>,
    headers: Vec<(Vec<u8>, Vec<u8>)>,
) -> (r: Result<HttpResponse, EverError>)
    requires
        head_len <= buf@.len(),
    ensures
        ({
            let status = match code {
                Some(c) => c,
                None => 0,
            };
            if 100 <= status <= 999 && headers_ok(header_views(headers@)) {
                r matches Ok(resp) && resp.status == status && resp.headers@ == headers@
                    && resp.body@ == buf@.skip(head_len as int)
            } else {
                r matches Err(EverError::InvalidHttpResponse)
            }
        }),
{
    let status = match code {
        Some(c) => c,
        None => 0,
    };
    if !status_valid(status) {
        return Err(EverError::InvalidHttpResponse);
    }
    let n = headers.len();
    let ghost hs = header_views(headers@);
    for i in 0..n
        invariant
            n == headers@.len(),
            hs == header_views(headers@),
            hs.len() == n,
            100 <= status <= 999,
            status == match code {
                Some(c) => c,
                None => 0,
            },
            forall|j: int| 0 <= j < i ==> header_ok(#[trigger] hs[j]),
    {
        let ghost h = hs[i as int];
        assert(h == (headers@[i as int].0@, headers@[i as int].1@));
        let name_ok = header_name_valid(headers[i].0.as_slice());
        let value_ok = header_value_valid(headers[i].1.as_slice());
        if !(name_ok && value_ok) {
            assert(!header_ok(h));
            assert(!headers_ok(hs));
            return Err(EverError::InvalidHttpResponse);
        }
    }
    let body = vstd::slice::slice_to_vec(vstd::slice::slice_subrange(buf, head_len, buf.len()));
    assert(body@ =~= buf@.skip(head_len as int));
    Ok(HttpResponse { status, headers, body })
}

/// Parses the head of a response in `buf`; the bytes after it start the body.
pub fn parse_head(buf: &[u8]) -> (r: Result<HttpResponse, EverError>)
    ensures
        match httparse_response(buf@) {
            None => r matches Err(EverError::InvalidHttpResponse),
            Some((n, code, hs)) => {
                let status = match code {
                    Some(c) => c,
                    None => 0,
                };
                if 100 <= status <= 999 && headers_ok(hs) {
                    r matches Ok(resp) && resp.status == status && resp.hviews() == hs
                        && resp.body@ == buf@.skip(n as int)
                } else {
                    r matches Err(EverError::InvalidHttpResponse)
                }
            },
        },
{
    match httparse_head(buf) {
        None => Err(EverError::InvalidHttpResponse),
        Some((n, code, headers)) => response_from_parts(buf, n, code, headers),
    }
}

/// The body as text, or an invalid-body error when it is not UTF-8.
pub fn body_text(body: Vec<u8>) -> (r: Result<String, EverError>)
    ensures
        vstd::utf8::valid_utf8(body@) ==> (r matches Ok(s) && s@ == vstd::utf8::decode_utf8(body@)),
        !vstd::utf8::valid_utf8(body@) ==> r matches Err(EverError::InvalidBody),
{
    match crate::utils::string_from_utf8(body) {
        Some(s) => Ok(s),
        None => Err(EverError::InvalidBody),
    }
}

/// The most bytes asked for in one read of a body with a length.
pub const READ_MAX: usize = 65536;

/// A body delimited by a length, read as it arrives.
pub struct LengthReader {
    pub body: Vec<u8>,
    pub remaining: usize,
}

impl LengthReader {
    /// A reader for a body of `content_length` bytes that starts with `initial`; bytes beyond the
    /// length that came with the head are kept.
    pub fn new(content_length: usize, initial: Vec<u8>) -> (r: LengthReader)
        ensures
            r.body@ == initial@,
            r.remaining == (if content_length >= initial@.len() {
                content_length - initial@.len()
            } else {
                0
            }),
    {
        let remaining = content_length.saturating_sub(initial.len());
        LengthReader { body: initial, remaining }
    }

    /// How many bytes to ask for next; 0 once the body is complete.
    pub fn want(&self) -> (n: usize)
        ensures
            n == (if self.remaining < READ_MAX {
                self.remaining
            } else {
                READ_MAX
            }),
    {
        if self.remaining < READ_MAX {
            self.remaining
        } else {
            READ_MAX
        }
    }

    /// Adds bytes that arrived, at most as many as were asked for.
    pub fn feed(&mut self, data: &[u8])
        requires
            data@.len() <= old(self).remaining,
        ensures
            final(self).body@ == old(self).body@ + data@,
            final(self).remaining == old(self).remaining - data@.len(),
    {
        crate::wire::write_bytes(&mut self.body, data);
        self.remaining = self.remaining - data.len();
    }
}

fn lower(b: u8) -> (r: u8)
    ensures
        r == ascii_lower(b),
{
    if 65 <= b && b <= 90 {
        b + 32
    } else {
        b
    }
}

fn name_matches(name: &[u8], k: &[u8]) -> (r: bool)
    ensures
        r == name_is(name@, k@),
{
    if name.len() != k.len() {
        return false;
    }
    let n = name.len();
    for i in 0..n
        invariant
            n == name@.len() == k@.len(),
            forall|j: int| 0 <= j < i ==> ascii_lower(name@[j]) == k@[j],
    {
        if lower(name[i]) != k[i] {
            return false;
        }
    }
    true
}

fn visible(v: &[u8]) -> (r: Option<Vec<char>>)
    ensures
        match visible_text(v@) {
            Some(t) => r matches Some(c) && c@ == t,
            None => r is None,
        },
{
    let n = v.len();
    let mut out: Vec<char> = Vec::new();
    for i in 0..n
        invariant
            n == v@.len(),
            out@.len() == i,
            forall|j: int| 0 <= j < i ==> v@[j] == 9 || (32 <= v@[j] && v@[j] < 127),
            forall|j: int| 0 <= j < i ==> out@[j] == v@[j] as char,
    {
        let b = v[i];
        if !(b == 9 || (32 <= b && b < 127)) {
            return None;
        }
        out.push(b as char);
    }
    assert(out@ =~= v@.map_values(|b: u8| b as char));
    Some(out)
}

fn occurs(hay: &[u8], needle: &[u8]) -> (r: bool)
    ensures
        r == occurs_in(hay@, needle@),
{
    let n = hay.len();
    let m = needle.len();
    if m > n {
        return false;
    }
    let mut i: usize = 0;
    while i <= n - m
        invariant
            n == hay@.len(),
            m == needle@.len(),
            m <= n,
            i <= n - m + 1,
            forall|k: int| 0 <= k < i ==> #[trigger] hay@.subrange(k, k + m) != needle@,
        decreases n - m + 1 - i,
    {
        let mut same = true;
        let mut j: usize = 0;
        while j < m
            invariant
                i <= n - m,
                j <= m,
                n == hay@.len(),
                m == needle@.len(),
                same <==> forall|l: int| 0 <= l < j ==> hay@[i + l] == needle@[l],
            decreases m - j,
        {
            if hay[i + j] != needle[j] {
                same = false;
            }
            j = j + 1;
        }
        if same {
            assert(hay@.subrange(i as int, i + m) =~= needle@);
            return true;
        }
        assert(hay@.subrange(i as int, i + m) != needle@) by {
            let l = choose|l: int| 0 <= l < m && hay@[i + l] != needle@[l];
            assert(hay@.subrange(i as int, i + m)[l] == hay@[i + l]);
        }
        i = i + 1;
    }
    false
}

impl HttpResponse {
    /// The header views of the response.
    pub open spec fn hviews(&self) -> Seq<(Seq<u8>, Seq<u8>)> {
        header_views(self.headers@)
    }

    /// The value of the first header named `k` (in lower case).
    pub fn header(&self, k: &[u8]) -> (r: Option<&Vec<u8>>)
        ensures
            match header_value(self.hviews(), k@) {
                Some(v) => r matches Some(x) && x@ == v,
                None => r is None,
            },
    {
        let n = self.headers.len();
        let ghost hs = self.hviews();
        assert(hs.skip(0) =~= hs);
        for i in 0..n
            invariant
                n == self.headers@.len(),
                hs == self.hviews(),
                hs.len() == n,
                find_header(hs, k@) == match find_header(hs.skip(i as int), k@) {
                    Some(j) => Some(j + i),
                    None => None::<int>,
                },
        {
            assert(hs.skip(i as int).drop_first() =~= hs.skip(i + 1));
            assert(hs.skip(i as int)[0] == hs[i as int]);
            if name_matches(self.headers[i].0.as_slice(), k) {
                return Some(&self.headers[i].1);
            }
        }
        assert(hs.skip(n as int) =~= Seq::<(Seq<u8>, Seq<u8>)>::empty());
        None
    }

    /// How the body of the response is delimited.
    pub fn framing(&self) -> (r: Framing)
        ensures
            r == spec_framing(self.hviews()),
    {
        proof {
            reveal_strlit("chunked");
            assert(key("chunked").len() > 0);
            assert(!occurs_in(Seq::empty(), key("chunked")));
        }
        let chunked = match self.header("transfer-encoding".as_bytes()) {
            Some(v) => match visible(v.as_slice()) {
                Some(_) => occurs(v.as_slice(), "chunked".as_bytes()),
                None => false,
            },
            None => false,
        };
        if chunked {
            return Framing::Chunked;
        }
        match self.header("content-length".as_bytes()) {
            None => Framing::ToEnd,
            Some(v) => match visible(v.as_slice()) {
                None => Framing::BadLength,
                Some(t) => match from_str_radix(t.as_slice(), 10) {
                    None => Framing::BadLength,
                    Some(n) => Framing::Length(n),
                },
            },
        }
    }

    /// Whether the body is gzip-compressed; `None` when the `content-encoding` value is not
    /// readable text.
    pub fn is_gzip(&self) -> (r: Option<bool>)
        ensures
            r == spec_gzip(self.hviews()),
    {
        match self.header("content-encoding".as_bytes()) {
            None => Some(false),
            Some(v) => match visible(v.as_slice()) {
                None => None,
                Some(_) => Some(name_matches(v.as_slice(), "gzip".as_bytes())),
            },
        }
    }

    /// The request that follows this response when it is a redirect.
    pub fn redirect(&self) -> (r: Result<Option<String>, ()>)
        ensures
            match (r, spec_redirect(self.status, self.hviews())) {
                (Ok(Some(a)), Ok(Some(b))) => a@ == b,
                (Ok(None), Ok(None)) => true,
                (Err(()), Err(())) => true,
                _ => false,
            },
    {
        if !(300 <= self.status && self.status < 400) {
            return Ok(None);
        }
        let v = match self.header("location".as_bytes()) {
            None => return Ok(None),
            Some(v) => v,
        };
        let t = match visible(v.as_slice()) {
            None => return Err(()),
            Some(t) => t,
        };
        let mut s = String::new();
        let n = t.len();
        for i in 0..n
            invariant
                n == t@.len(),
                s@ == t@.take(i as int),
        {
            push_char(&mut s, t[i]);
            assert(s@ =~= t@.take(i + 1));
        }
        assert(t@.take(n as int) =~= t@);
        match parse_url(s.as_str()) {
            None => Err(()),
            Some((p, q, h)) => match h {
                None => Err(()),
                Some(host) => {
                    let mut path = p;
                    match q {
                        Some(q) => {
                            push_char(&mut path, '?');
                            push_str(&mut path, q.as_str());
                        },
                        None => {},
                    }
                    Ok(Some(get_head(path.as_str(), host.as_str())))
                },
            },
        }
    }
}

/// What gzip decoding (as async-compression's `GzipDecoder` reads a single member) makes of
/// `data`: the decoded bytes, `None` when `data` is not valid gzip.
pub uninterp spec fn gunzipped(data: Seq<u8>) -> Option<Seq<u8>>;

/// async-compression's `tokio::bufread::GzipDecoder`, read to the end over the bytes in memory:
/// the decoded bytes, `None` when they are not valid gzip. The input never makes the decoder
/// wait, so one poll completes the read. What it decodes is named, not stated.
#[verifier::external_body]
fn gunzip(data: &[u8]) -> (r: Option<Vec<u8>>)
    ensures
        match gunzipped(data@) {
            Some(b) => r matches Some(v) && v@ == b,
            None => r is None,
        },
{
    let mut decoder = async_compression::tokio::bufread::GzipDecoder::new(std::io::Cursor::new(data));
    let mut out = Vec::new();
    let done = {
        let mut read = Box::pin(tokio::io::AsyncReadExt::read_to_end(&mut decoder, &mut out));
        let mut cx = std::task::Context::from_waker(std::task::Waker::noop());
        std::future::Future::poll(read.as_mut(), &mut cx)
    };
    match done {
        std::task::Poll::Ready(Ok(_)) => Some(out),
        _ => None,
    }
}

/// How the reading of a body stopped before the reader said it was complete.
#[derive(Debug, Clone, Copy, PartialEq, Eq, Structural)]
pub enum Stop {
    /// The stream ended.
    Eof,
    /// No bytes came in time.
    Timeout,
}

/// What the reader asks for next.
#[derive(Debug, Clone, Copy, PartialEq, Eq, Structural)]
pub enum BodyPoll {
    /// Read at most this many bytes (within the given time) and feed them.
    More(usize),
    /// The body is complete.
    Done,
    /// An empty chunk-size line: the reader never gets past it.
    Stalled,
}

/// The bytes of a body, before decompression, given its framing, every byte received
/// (including those that came with the head) and how the input stopped (`None`: the reader said
/// the body is complete). `None` where reading does not return.
pub open spec fn raw_body(f: Framing, received: Seq<u8>, stop: Option<Stop>) -> Option<
    Result<Seq<u8>, EverError>,
> {
    match f {
        Framing::Chunked => match chunked_body(received, stop == Some(Stop::Eof)) {
            Some(b) => Some(Ok(b)),
            None => None,
        },
        Framing::Length(_) => if stop == Some(Stop::Timeout) {
            Some(Err(EverError::ReadTimeout))
        } else {
            Some(Ok(received))
        },
        Framing::ToEnd => Some(Ok(received)),
        Framing::BadLength => None,
    }
}

/// The body a response reading returns: the raw body, gzip-decoded when `gzip` holds (an
/// invalid-gzip error when it does not decode).
pub open spec fn spec_read_body(f: Framing, gzip: bool, received: Seq<u8>, stop: Option<Stop>) -> Option<
    Result<Seq<u8>, EverError>,
> {
    match raw_body(f, received, stop) {
        Some(Ok(b)) => if gzip {
            match gunzipped(b) {
                Some(d) => Some(Ok(d)),
                None => Some(Err(EverError::InvalidGzip)),
            }
        } else {
            Some(Ok(b))
        },
        r => r,
    }
}

/// The decoding of a response body, by its framing.
enum BodyState {
    Chunked(ChunkedReader),
    Length(LengthReader),
    ToEnd(Vec<u8>),
}

/// The reading of a response body as it arrives, and its decompression.
pub struct BodyReader {
    state: BodyState,
    gzip: bool,
    framing: Ghost<Framing>,
    received: Ghost<Seq<u8>>,
}

impl BodyReader {
    #[verifier::type_invariant]
    closed spec fn inv(&self) -> bool {
        match self.state {
            BodyState::Chunked(c) => self.framing@ == Framing::Chunked && c.received()
                == self.received@,
            BodyState::Length(l) => self.framing@ is Length && l.body@ == self.received@,
            BodyState::ToEnd(v) => self.framing@ == Framing::ToEnd && v@ == self.received@,
        }
    }

    /// How the body is delimited.
    pub closed spec fn framing(&self) -> Framing {
        self.framing@
    }

    /// Whether the body is decompressed at the end.
    pub closed spec fn gzip(&self) -> bool {
        self.gzip
    }

    /// Every body byte received so far, from the first one that came with the head.
    pub closed spec fn received(&self) -> Seq<u8> {
        self.received@
    }

    /// How many bytes of a body with a length are still missing.
    pub closed spec fn remaining(&self) -> nat {
        match self.state {
            BodyState::Length(l) => l.remaining as nat,
            _ => 0,
        }
    }

    /// The reader for the body of `resp`, which starts with `resp.body`. A length that is not a
    /// number and a compression name that is not text are left out: reading such a response
    /// is a fatal error.
    pub fn new(resp: &HttpResponse) -> (r: BodyReader)
        requires
            spec_framing(resp.hviews()) != Framing::BadLength,
            spec_gzip(resp.hviews()) is Some,
        ensures
            r.framing() == spec_framing(resp.hviews()),
            r.gzip() == spec_gzip(resp.hviews())->Some_0,
            r.received() == resp.body@,
            r.remaining() == match spec_framing(resp.hviews()) {
                Framing::Length(n) => if n >= resp.body@.len() {
                    n - resp.body@.len()
                } else {
                    0
                },
                _ => 0,
            },
    {
        let framing = resp.framing();
        let gzip = match resp.is_gzip() {
            Some(g) => g,
            None => false,
        };
        let initial = vstd::slice::slice_to_vec(resp.body.as_slice());
        assert(initial@ =~= resp.body@);
        let ghost got = initial@;
        let state = match framing {
            Framing::Chunked => BodyState::Chunked(ChunkedReader::new(initial)),
            Framing::Length(n) => BodyState::Length(LengthReader::new(n, initial)),
            _ => BodyState::ToEnd(initial),
        };
        BodyReader { state, gzip, framing: Ghost(framing), received: Ghost(got) }
    }

    /// What the reader asks for next: a body with a length is complete once nothing is missing,
    /// a chunked one once its last chunk came; a body delimited by the end of the input always
    /// asks for more.
    pub fn poll(&mut self) -> (r: BodyPoll)
        ensures
            final(self).framing() == old(self).framing(),
            final(self).gzip() == old(self).gzip(),
            final(self).received() == old(self).received(),
            final(self).remaining() == old(self).remaining(),
            match old(self).framing() {
                Framing::Chunked => r == match crate::chunked::poll_of(
                    crate::chunked::dechunk(old(self).received(), Seq::empty()).0,
                ) {
                    ChunkPoll::More => BodyPoll::More(READ_MAX),
                    ChunkPoll::Done => BodyPoll::Done,
                    ChunkPoll::Stalled => BodyPoll::Stalled,
                },
                Framing::Length(_) => r == if old(self).remaining() == 0 {
                    BodyPoll::Done
                } else {
                    BodyPoll::More(
                        if old(self).remaining() < READ_MAX {
                            old(self).remaining() as usize
                        } else {
                            READ_MAX
                        },
                    )
                },
                _ => r == BodyPoll::More(READ_MAX),
            },
    {
        proof {
            use_type_invariant(&*self);
        }
        let mut me = BodyReader {
            state: BodyState::ToEnd(Vec::new()),
            gzip: false,
            framing: Ghost(Framing::ToEnd),
            received: Ghost(Seq::empty()),
        };
        std::mem::swap(&mut me, self);
        let BodyReader { state, gzip, framing, received } = me;
        let (state, r) = match state {
            BodyState::Chunked(mut c) => {
                let p = c.poll();
                let r = match p {
                    ChunkPoll::More => BodyPoll::More(READ_MAX),
                    ChunkPoll::Done => BodyPoll::Done,
                    ChunkPoll::Stalled => BodyPoll::Stalled,
                };
                (BodyState::Chunked(c), r)
            },
            BodyState::Length(l) => {
                let n = l.want();
                let r = if n == 0 {
                    BodyPoll::Done
                } else {
                    BodyPoll::More(n)
                };
                (BodyState::Length(l), r)
            },
            BodyState::ToEnd(v) => (BodyState::ToEnd(v), BodyPoll::More(READ_MAX)),
        };
        *self = BodyReader { state, gzip, framing, received };
        r
    }

    /// Adds bytes that arrived, at most as many as are missing of a body with a length.
    pub fn feed(&mut self, data: &[u8])
        requires
            old(self).framing() is Length ==> data@.len() <= old(self).remaining(),
        ensures
            final(self).framing() == old(self).framing(),
            final(self).gzip() == old(self).gzip(),
            final(self).received() == old(self).received() + data@,
            final(self).remaining() == if old(self).framing() is Length {
                old(self).remaining() - data@.len()
            } else {
                0
            },
    {
        proof {
            use_type_invariant(&*self);
        }
        let mut me = BodyReader {
            state: BodyState::ToEnd(Vec::new()),
            gzip: false,
            framing: Ghost(Framing::ToEnd),
            received: Ghost(Seq::empty()),
        };
        std::mem::swap(&mut me, self);
        let BodyReader { state, gzip, framing, received } = me;
        let ghost got = received@ + data@;
        let state = match state {
            BodyState::Chunked(mut c) => {
                c.feed(data);
                BodyState::Chunked(c)
            },
            BodyState::Length(mut l) => {
                l.feed(data);
                BodyState::Length(l)
            },
            BodyState::ToEnd(mut v) => {
                crate::wire::write_bytes(&mut v, data);
                BodyState::ToEnd(v)
            },
        };
        *self = BodyReader { state, gzip, framing, received: Ghost(got) };
    }

    /// The body, once the reader said it is complete (`stop` is `None`) or the input stopped;
    /// `None` where reading does not return.
    pub fn finish(self, stop: Option<Stop>) -> (r: Option<Result<Vec<u8>, EverError>>)
        ensures
            match spec_read_body(self.framing(), self.gzip(), self.received(), stop) {
                None => r is None,
                Some(Ok(b)) => r matches Some(Ok(v)) && v@ == b,
                Some(Err(e)) => r matches Some(Err(x)) && x == e,
            },
    {
        proof {
            use_type_invariant(&self);
        }
        let gzip = self.gzip;
        let raw: Vec<u8> = match self.state {
            BodyState::Chunked(c) => {
                let eof = match stop {
                    Some(Stop::Eof) => true,
                    _ => false,
                };
                match c.finish(eof) {
                    Some(b) => b,
                    None => return None,
                }
            },
            BodyState::Length(l) => {
                match stop {
                    Some(Stop::Timeout) => return Some(Err(EverError::ReadTimeout)),
                    _ => {},
                }
                l.body
            },
            BodyState::ToEnd(v) => v,
        };
        if !gzip {
            return Some(Ok(raw));
        }
        match gunzip(raw.as_slice()) {
            Some(d) => Some(Ok(d)),
            None => Some(Err(EverError::InvalidGzip)),
        }
    }
}

/// How many redirects a relay request has followed; never more than `MAX_REDIRECTS`.
pub struct Redirects {
    followed: usize,
}

impl Redirects {
    #[verifier::type_invariant]
    closed spec fn inv(&self) -> bool {
        self.followed <= MAX_REDIRECTS
    }

    /// How many redirects were followed.
    pub closed spec fn followed(&self) -> nat {
        self.followed as nat
    }

    /// A request that has followed no redirect.
    pub fn new() -> (r: Redirects)
        ensures
            r.followed() == 0,
    {
        Redirects { followed: 0 }
    }

    /// The request to send after the response `resp`: the request that follows its redirect,
    /// while fewer than `MAX_REDIRECTS` have been followed; `Ok(None)` when the exchange is over;
    /// `Err(())` when the redirect's location is unusable (a fatal error).
    pub fn next(&mut self, resp: &HttpResponse) -> (r: Result<Option<String>, ()>)
        ensures
            final(self).followed() <= MAX_REDIRECTS,
            old(self).followed() >= MAX_REDIRECTS ==> r == Ok::<Option<String>, ()>(None)
                && final(self).followed() == old(self).followed(),
            old(self).followed() < MAX_REDIRECTS ==> match (
                r,
                spec_redirect(resp.status, resp.hviews()),
            ) {
                (Ok(Some(a)), Ok(Some(b))) => a@ == b && final(self).followed() == old(
                    self,
                ).followed() + 1,
                (Ok(None), Ok(None)) => final(self).followed() == old(self).followed(),
                (Err(()), Err(())) => final(self).followed() == old(self).followed(),
                _ => false,
            },
    {
        proof {
            use_type_invariant(&*self);
        }
        if self.followed >= MAX_REDIRECTS {
            return Ok(None);
        }
        let r = resp.redirect();
        match r {
            Ok(Some(_)) => {
                self.followed = self.followed + 1;
            },
            _ => {},
        }
        r
    }
}

/// The decimal text of `n` is ASCII digits, without a sign, and reads back as `n`.
proof fn lemma_decimal_digits(n: nat)
    ensures
        decimal(n).len() > 0,
        decimal(n)[0] != '+',
        forall|i: int| 0 <= i < decimal(n).len() ==> 48 <= #[trigger] (decimal(n)[i] as u32) <= 57,
        digits_value(decimal(n), 10) == Some(n),
    decreases n,
{
    if n < 10 {
        assert(seq![digit_char(n)].drop_last() =~= Seq::<char>::empty());
        assert(digit_value(digit_char(n), 10) == Some(n));
        assert(digits_value(Seq::<char>::empty(), 10) == Some(0nat));
        assert(digits_value(seq![digit_char(n)], 10) == Some(0 * 10 + n));
    } else {
        let h = decimal(n / 10);
        lemma_decimal_digits(n / 10);
        let t = h.push(digit_char(n % 10));
        assert(t.drop_last() =~= h);
        assert(digit_value(digit_char(n % 10), 10) == Some(n % 10));
        assert(digits_value(t, 10) == Some((n / 10) * 10 + n % 10));
        assert((n / 10) * 10 + n % 10 == n) by {
            vstd::arithmetic::div_mod::lemma_fundamental_div_mod(n as int, 10);
        }
        assert(t[0] == h[0]);
        assert forall|i: int| 0 <= i < t.len() implies 48 <= #[trigger] (t[i] as u32) <= 57 by {
            if i < h.len() {
                assert(t[i] == h[i]);
            }
        }
    }
}

/// The bytes of the decimal text of `n`, as they stand in a header.
pub open spec fn decimal_bytes(n: nat) -> Seq<u8>
    decreases n,
{
    if n < 10 {
        seq![(48 + n) as u8]
    } else {
        decimal_bytes(n / 10).push((48 + n % 10) as u8)
    }
}

/// The decimal bytes of `n` are ASCII digits, and read as characters they are its decimal text.
proof fn lemma_decimal_bytes(n: nat)
    ensures
        forall|i: int| 0 <= i < decimal_bytes(n).len() ==> 48 <= #[trigger] decimal_bytes(n)[i] <= 57,
        decimal_bytes(n).map_values(|b: u8| b as char) == decimal(n),
    decreases n,
{
    if n < 10 {
        assert(decimal_bytes(n).map_values(|b: u8| b as char) =~= decimal(n));
    } else {
        lemma_decimal_bytes(n / 10);
        let h = decimal_bytes(n / 10);
        let t = decimal_bytes(n);
        assert(t == h.push((48 + n % 10) as u8));
        assert forall|i: int| 0 <= i < t.len() implies 48 <= #[trigger] t[i] <= 57 by {
            if i < h.len() {
                assert(t[i] == h[i]);
            }
        }
        assert(t.map_values(|b: u8| b as char) =~= h.map_values(|b: u8| b as char).push(
            ((48 + n % 10) as u8) as char,
        ));
    }
}

/// A body with a length is delimited by that length: a `content-length` header whose value is the
/// decimal text of `n`, with no `transfer-encoding` header, frames the body as `n` bytes, for
/// every `n` that fits in memory, 0 included.
pub proof fn lemma_length_framing(hs: Seq<(Seq<u8>, Seq<u8>)>, n: nat)
    requires
        n <= usize::MAX,
        header_value(hs, key("content-length")) == Some(decimal_bytes(n)),
        header_value(hs, key("transfer-encoding")) is None,
    ensures
        spec_framing(hs) == Framing::Length(n as usize),
{
    lemma_decimal_digits(n);
    lemma_decimal_bytes(n);
    let v = decimal_bytes(n);
    assert forall|i: int| 0 <= i < v.len() implies v[i] == 9 || (32 <= v[i] && v[i] < 127) by {
        assert(48 <= v[i] <= 57);
    }
    assert(visible_text(v) == Some(decimal(n)));
    assert(!occurs_in(Seq::<u8>::empty(), key("chunked"))) by {
        reveal_strlit("chunked");
    }
}

/// Every 3xx response with a readable, absolute `location` is followed: the next request is a GET
/// of the location's path (and query) on its host; any other status is not followed.
pub proof fn lemma_redirect_follows_3xx(status: u16, hs: Seq<(Seq<u8>, Seq<u8>)>)
    ensures
        !(300 <= status && status < 400) ==> spec_redirect(status, hs) == Ok::<Option<Seq<char>>, ()>(None),
        (300 <= status && status < 400) ==> match header_value(hs, key("location")) {
            None => spec_redirect(status, hs) == Ok::<Option<Seq<char>>, ()>(None),
            Some(v) => match visible_text(v) {
                Some(t) => match url_parts(t) {
                    Some((p, q, Some(host))) => spec_redirect(status, hs) == Ok::<Option<Seq<char>>, ()>(
                        Some(
                            "GET "@ + (match q {
                                Some(q) => p + seq!['?'] + q,
                                None => p,
                            }) + " HTTP/1.1\r\nHOST: "@ + host
                                + "\r\nAccept-Encoding: gzip\r\nConnection: keep-alive\r\n\r\n"@,
                        ),
                    ),
                    _ => spec_redirect(status, hs) is Err,
                },
                None => spec_redirect(status, hs) is Err,
            },
        },
{
}

/// What a body read returns, by its framing: a body delimited by the end of the input is every
/// byte received, however the input stopped; a body with a length is every byte received unless
/// a read timed out; a chunked body reads back as the data of its chunks. Without compression,
/// that is the body returned.
pub proof fn lemma_body_by_framing(received: Seq<u8>, stop: Option<Stop>, n: usize, pieces: Seq<Seq<u8>>, tail: Seq<u8>)
    requires
        forall|i: int| 0 <= i < pieces.len() ==> 0 < #[trigger] pieces[i].len() <= usize::MAX,
    ensures
        raw_body(Framing::ToEnd, received, stop) == Some(Ok::<Seq<u8>, EverError>(received)),
        spec_read_body(Framing::ToEnd, false, received, stop) == Some(Ok::<Seq<u8>, EverError>(received)),
        stop != Some(Stop::Timeout) ==> raw_body(Framing::Length(n), received, stop) == Some(
            Ok::<Seq<u8>, EverError>(received),
        ),
        stop == Some(Stop::Timeout) ==> raw_body(Framing::Length(n), received, stop) == Some(
            Err::<Seq<u8>, EverError>(EverError::ReadTimeout),
        ),
        raw_body(Framing::Chunked, chunk_encode(pieces) + tail, stop) == Some(
            Ok::<Seq<u8>, EverError>(concat_pieces(pieces)),
        ),
        raw_body(Framing::BadLength, received, stop) is None,
{
    lemma_chunked_roundtrip(pieces, tail, stop == Some(Stop::Eof));
}

} // verus!
