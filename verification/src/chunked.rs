//! Decoding of a chunked response body as it arrives.
use crate::numparse::{digit_value, digits_value, from_str_radix, spec_from_str_radix};
use crate::text::hex_char;
use crate::utils::string_from_utf8;
use crate::wire::write_bytes;
use vstd::prelude::*;
use vstd::utf8::{decode_utf8, encode_utf8, is_ascii_chars, valid_utf8};

verus! {

/// Whether `c` is white space in the sense of Unicode, as `char::is_whitespace` tells.
pub open spec fn is_unicode_whitespace(c: char) -> bool {
    let v = c as u32;
    (9 <= v <= 13) || v == 32 || v == 0x85 || v == 0xA0 || v == 0x1680 || (0x2000 <= v <= 0x200A)
        || v == 0x2028 || v == 0x2029 || v == 0x202F || v == 0x205F || v == 0x3000
}

/// `char::is_whitespace`.
#[verifier::external_body]
fn char_is_whitespace(c: char) -> (r: bool)
    ensures
        r == is_unicode_whitespace(c),
{
    c.is_whitespace()
}

/// The characters of `cs` that are not white space.
pub open spec fn non_ws(cs: Seq<char>) -> Seq<char>
    decreases cs.len(),
{
    if cs.len() == 0 {
        cs
    } else if is_unicode_whitespace(cs.last()) {
        non_ws(cs.drop_last())
    } else {
        non_ws(cs.drop_last()).push(cs.last())
    }
}

/// The first line end (`\r\n`) in `buf` at or after `i`.
pub open spec fn find_crlf_from(buf: Seq<u8>, i: nat) -> Option<nat>
    decreases buf.len() - i,
{
    if i + 1 >= buf.len() {
        None
    } else if buf[i as int] == 13 && buf[i + 1int] == 10 {
        Some(i)
    } else {
        find_crlf_from(buf, i + 1)
    }
}

/// What a chunk-size line says.
pub enum SizeLine {
    /// Not UTF-8, or not a hexadecimal number: decoding stops.
    Bad,
    /// Only white space: the decoder reads the same line again, forever.
    Empty,
    /// A chunk of this many bytes follows; 0 ends the body.
    Size(nat),
}

/// What a chunk-size line says: its characters other than white space, as a hexadecimal number.
pub open spec fn size_line(line: Seq<u8>) -> SizeLine {
    if !valid_utf8(line) {
        SizeLine::Bad
    } else {
        let cs = non_ws(decode_utf8(line));
        if cs.len() == 0 {
            SizeLine::Empty
        } else {
            match spec_from_str_radix(cs, 16) {
                None => SizeLine::Bad,
                Some(n) => SizeLine::Size(n as nat),
            }
        }
    }
}

/// The state of the buffered body bytes.
pub enum ChunkStep {
    /// No complete size line yet.
    NeedLine,
    /// The body ends here (size 0, or a bad size line).
    Stop,
    /// An empty size line: the decoder never gets past it.
    Stall,
    /// A size line for `size` bytes whose data, starting at `start`, has not fully arrived
    /// with the two bytes after it.
    NeedData { start: nat, size: nat },
    /// A complete chunk: `size` bytes at `start`, then two bytes that are skipped.
    Chunk { start: nat, size: nat },
}

/// What the decoder finds at the front of `buf`.
pub open spec fn chunk_step(buf: Seq<u8>) -> ChunkStep {
    match find_crlf_from(buf, 0) {
        None => ChunkStep::NeedLine,
        Some(end) => match size_line(buf.take(end as int)) {
            SizeLine::Bad => ChunkStep::Stop,
            SizeLine::Empty => ChunkStep::Stall,
            SizeLine::Size(n) => if n == 0 {
                ChunkStep::Stop
            } else if buf.len() >= end + 2 + n + 2 {
                ChunkStep::Chunk { start: end + 2, size: n }
            } else {
                ChunkStep::NeedData { start: end + 2, size: n }
            },
        },
    }
}

/// A line end found from `i` lies within `buf`.
pub proof fn lemma_find_crlf_bounds(buf: Seq<u8>, i: nat)
    ensures
        find_crlf_from(buf, i) matches Some(e) ==> i <= e && e + 1 < buf.len() && buf[e as int]
            == 13 && buf[e + 1int] == 10,
    decreases buf.len() - i,
{
    if i + 1 < buf.len() && !(buf[i as int] == 13 && buf[i + 1int] == 10) {
        lemma_find_crlf_bounds(buf, i + 1);
    }
}

/// A complete chunk lies within `buf`.
pub proof fn lemma_chunk_bounds(buf: Seq<u8>)
    ensures
        chunk_step(buf) matches ChunkStep::Chunk { start, size } ==> start >= 2 && start + size
            + 2 <= buf.len(),
{
    lemma_find_crlf_bounds(buf, 0);
}

/// Decoding all complete chunks at the front of `buf`, appending their data to `result`: the
/// state it stops in, the data and the bytes left.
pub open spec fn dechunk(buf: Seq<u8>, result: Seq<u8>) -> (ChunkStep, Seq<u8>, Seq<u8>)
    decreases buf.len(),
{
    match chunk_step(buf) {
        ChunkStep::Chunk { start, size } => {
            proof {
                lemma_chunk_bounds(buf);
            }
            dechunk(
                buf.skip((start + size + 2) as int),
                result + buf.subrange(start as int, (start + size) as int),
            )
        },
        s => (s, result, buf),
    }
}

/// The body that reading a chunked body returns, given every byte received before the input
/// stopped, and whether it stopped at the end of the stream (else at a time-out): the data of the
/// complete chunks, plus, at the end of the stream in the middle of a chunk, that chunk's data.
/// `None` where the reader does not return: a chunk cut short by the end of the stream before
/// its data is complete, or an empty size line.
pub open spec fn chunked_body(received: Seq<u8>, eof: bool) -> Option<Seq<u8>> {
    let (st, res, buf) = dechunk(received, Seq::empty());
    match st {
        ChunkStep::NeedData { start, size } => if !eof {
            Some(res)
        } else if buf.len() >= start + size {
            Some(res + buf.subrange(start as int, (start + size) as int))
        } else {
            None
        },
        ChunkStep::Stall => None,
        _ => Some(res),
    }
}

/// What the reader does next.
#[derive(Debug, Clone, Copy, PartialEq, Eq, Structural)]
pub enum ChunkPoll {
    /// Read more input.
    More,
    /// The body is complete.
    Done,
    /// An empty size line: the reader never gets past it.
    Stalled,
}

/// What the reader does next in state `st`.
pub open spec fn poll_of(st: ChunkStep) -> ChunkPoll {
    match st {
        ChunkStep::NeedLine => ChunkPoll::More,
        ChunkStep::NeedData { .. } => ChunkPoll::More,
        ChunkStep::Stop => ChunkPoll::Done,
        ChunkStep::Stall => ChunkPoll::Stalled,
        ChunkStep::Chunk { .. } => ChunkPoll::Done,
    }
}

/// A line end found in `buf` stays the first one when bytes are appended.
proof fn lemma_find_crlf_extend(buf: Seq<u8>, d: Seq<u8>, i: nat)
    ensures
        find_crlf_from(buf, i) matches Some(e) ==> find_crlf_from(buf + d, i) == Some(e),
    decreases buf.len() - i,
{
    if i + 1 < buf.len() {
        assert((buf + d)[i as int] == buf[i as int]);
        assert((buf + d)[i + 1int] == buf[i + 1int]);
        if !(buf[i as int] == 13 && buf[i + 1int] == 10) {
            lemma_find_crlf_extend(buf, d, i + 1);
        }
    }
}

/// A complete chunk stays the same chunk when bytes are appended, and what follows it gets the
/// appended bytes.
proof fn lemma_chunk_extend(buf: Seq<u8>, d: Seq<u8>)
    requires
        chunk_step(buf) is Chunk,
    ensures
        chunk_step(buf + d) == chunk_step(buf),
        match chunk_step(buf) {
            ChunkStep::Chunk { start, size } => (buf + d).skip((start + size + 2) as int) == buf.skip(
                (start + size + 2) as int,
            ) + d && (buf + d).subrange(start as int, (start + size) as int) == buf.subrange(
                start as int,
                (start + size) as int,
            ),
            _ => true,
        },
{
    lemma_find_crlf_extend(buf, d, 0);
    lemma_chunk_bounds(buf);
    let e = find_crlf_from(buf, 0)->Some_0;
    lemma_find_crlf_bounds(buf, 0);
    assert((buf + d).take(e as int) =~= buf.take(e as int));
    if let ChunkStep::Chunk { start, size } = chunk_step(buf) {
        assert((buf + d).skip((start + size + 2) as int) =~= buf.skip((start + size + 2) as int)
            + d);
        assert((buf + d).subrange(start as int, (start + size) as int) =~= buf.subrange(
            start as int,
            (start + size) as int,
        ));
    }
}

/// The state of the buffered body bytes, with `usize` positions.
enum Step {
    NeedLine,
    Stop,
    Stall,
    NeedData { start: usize, size: usize },
    Chunk { start: usize, size: usize },
}

spec fn step_view(s: Step) -> ChunkStep {
    match s {
        Step::NeedLine => ChunkStep::NeedLine,
        Step::Stop => ChunkStep::Stop,
        Step::Stall => ChunkStep::Stall,
        Step::NeedData { start, size } => ChunkStep::NeedData {
            start: start as nat,
            size: size as nat,
        },
        Step::Chunk { start, size } => ChunkStep::Chunk { start: start as nat, size: size as nat },
    }
}

fn find_crlf(buf: &[u8]) -> (r: Option<usize>)
    ensures
        match find_crlf_from(buf@, 0) {
            Some(e) => r == Some(e as usize),
            None => r is None,
        },
{
    let n = buf.len();
    let mut i: usize = 0;
    while n - i > 1
        invariant
            i <= n,
            n == buf@.len(),
            find_crlf_from(buf@, 0) == find_crlf_from(buf@, i as nat),
        decreases n - i,
    {
        if buf[i] == 13 && buf[i + 1] == 10 {
            return Some(i);
        }
        i = i + 1;
    }
    None
}

fn strip_whitespace(s: &str) -> (r: Vec<char>)
    ensures
        r@ == non_ws(s@),
{
    let n = s.unicode_len();
    let mut out: Vec<char> = Vec::new();
    assert(s@.take(0) =~= Seq::<char>::empty());
    for i in 0..n
        invariant
            n == s@.len(),
            out@ == non_ws(s@.take(i as int)),
    {
        let c = s.get_char(i);
        assert(s@.take(i + 1).drop_last() =~= s@.take(i as int));
        if !char_is_whitespace(c) {
            out.push(c);
        }
    }
    assert(s@.take(n as int) =~= s@);
    out
}

fn step(buf: &[u8]) -> (r: Step)
    ensures
        step_view(r) == chunk_step(buf@),
{
    let blen = buf.len();
    let end = match find_crlf(buf) {
        None => return Step::NeedLine,
        Some(e) => e,
    };
    proof {
        lemma_find_crlf_bounds(buf@, 0);
    }
    assert(find_crlf_from(buf@, 0) == Some(end as nat));
    let line = vstd::slice::slice_to_vec(vstd::slice::slice_subrange(buf, 0, end));
    assert(line@ =~= buf@.take(end as int));
    let ghost line_view = line@;
    let text = match string_from_utf8(line) {
        None => {
            assert(size_line(buf@.take(end as int)) is Bad);
            return Step::Stop;
        },
        Some(t) => t,
    };
    let digits = strip_whitespace(text.as_str());
    if digits.len() == 0 {
        assert(size_line(buf@.take(end as int)) is Empty);
        return Step::Stall;
    }
    let size = match from_str_radix(digits.as_slice(), 16) {
        None => return Step::Stop,
        Some(n) => n,
    };
    if size == 0 {
        return Step::Stop;
    }
    let avail = buf.len() - (end + 2);
    if avail >= 2 && avail - 2 >= size {
        Step::Chunk { start: end + 2, size }
    } else {
        Step::NeedData { start: end + 2, size }
    }
}

/// A chunked body being decoded: the bytes not yet decoded and the data decoded so far.
pub struct ChunkedReader {
    buf: Vec<u8>,
    result: Vec<u8>,
    received: Ghost<Seq<u8>>,
}

impl ChunkedReader {
    /// Every byte fed to the reader so far.
    pub closed spec fn received(&self) -> Seq<u8> {
        self.received@
    }

    #[verifier::type_invariant]
    closed spec fn inv(&self) -> bool {
        forall|d: Seq<u8>| #[trigger] dechunk(self.received@ + d, Seq::empty()) == dechunk(
            self.buf@ + d,
            self.result@,
        )
    }

    fn empty() -> (r: ChunkedReader)
        ensures
            r.received() == Seq::<u8>::empty(),
    {
        ChunkedReader { buf: Vec::new(), result: Vec::new(), received: Ghost(Seq::empty()) }
    }

    /// A reader that starts with the body bytes that came with the head.
    pub fn new(initial: Vec<u8>) -> (r: ChunkedReader)
        ensures
            r.received() == initial@,
    {
        let result: Vec<u8> = Vec::new();
        ChunkedReader { buf: initial, result, received: Ghost(initial@) }
    }

    /// Adds bytes that arrived.
    pub fn feed(&mut self, data: &[u8])
        ensures
            final(self).received() == old(self).received() + data@,
    {
        proof {
            use_type_invariant(&*self);
        }
        let ghost rcv = self.received@ + data@;
        let ghost old_buf = self.buf@;
        let ghost res = self.result@;
        let mut me = ChunkedReader::empty();
        std::mem::swap(&mut me, self);
        let ChunkedReader { mut buf, result, received: _ } = me;
        write_bytes(&mut buf, data);
        assert forall|d: Seq<u8>| #[trigger] dechunk(rcv + d, Seq::empty()) == dechunk(
            buf@ + d,
            result@,
        ) by {
            assert(rcv + d =~= old(self).received() + (data@ + d));
            assert(buf@ + d =~= old_buf + (data@ + d));
        }
        *self = ChunkedReader { buf, result, received: Ghost(rcv) };
    }

    /// Moves the data of every complete chunk to the result; returns where decoding stands.
    fn drain(&mut self) -> (r: Step)
        ensures
            final(self).received() == old(self).received(),
            ({
                let (st, res, b) = dechunk(old(self).received(), Seq::empty());
                &&& step_view(r) == st
                &&& final(self).result@ == res
                &&& final(self).buf@ == b
            }),
    {
        proof {
            use_type_invariant(&*self);
        }
        let ghost rcv = self.received@;
        let mut me = ChunkedReader::empty();
        std::mem::swap(&mut me, self);
        let ChunkedReader { mut buf, mut result, received: _ } = me;
        proof {
            assert(old(self).buf@ + Seq::<u8>::empty() =~= old(self).buf@);
            assert(rcv + Seq::<u8>::empty() =~= rcv);
            assert(dechunk(rcv + Seq::<u8>::empty(), Seq::empty()) == dechunk(
                old(self).buf@ + Seq::<u8>::empty(),
                old(self).result@,
            ));
        }
        loop
            invariant
                rcv == old(self).received(),
                forall|d: Seq<u8>| #[trigger] dechunk(rcv + d, Seq::empty()) == dechunk(
                    buf@ + d,
                    result@,
                ),
            decreases buf@.len(),
        {
            let s = step(buf.as_slice());
            match s {
                Step::Chunk { start, size } => {
                    proof {
                        lemma_chunk_bounds(buf@);
                        assert(chunk_step(buf@) == ChunkStep::Chunk { start: start as nat, size: size as nat });
                        assert(start + size + 2 <= buf@.len());
                    }
                    let blen = buf.len();
                    let ghost old_buf = buf@;
                    let ghost old_res = result@;
                    write_bytes(&mut result, vstd::slice::slice_subrange(buf.as_slice(), start, start + size));
                    let next = start + size + 2;
                    let rest = vstd::slice::slice_to_vec(
                        vstd::slice::slice_subrange(buf.as_slice(), next, buf.len()),
                    );
                    assert(rest@ =~= old_buf.skip(next as int));
                    assert forall|d: Seq<u8>| #[trigger] dechunk(rcv + d, Seq::empty()) == dechunk(
                        rest@ + d,
                        result@,
                    ) by {
                        lemma_chunk_extend(old_buf, d);
                        lemma_chunk_bounds(old_buf + d);
                    }
                    buf = rest;
                },
                _ => {
                    proof {
                        assert(buf@ + Seq::<u8>::empty() =~= buf@);
                        assert(rcv + Seq::<u8>::empty() =~= rcv);
                        assert(dechunk(rcv + Seq::<u8>::empty(), Seq::empty()) == dechunk(
                            buf@ + Seq::<u8>::empty(),
                            result@,
                        ));
                    }
                    *self = ChunkedReader { buf, result, received: Ghost(rcv) };
                    return s;
                },
            }
        }
    }

    /// Decodes what can be decoded and tells what the reader does next.
    pub fn poll(&mut self) -> (r: ChunkPoll)
        ensures
            final(self).received() == old(self).received(),
            r == poll_of(dechunk(old(self).received(), Seq::empty()).0),
    {
        match self.drain() {
            Step::NeedLine => ChunkPoll::More,
            Step::NeedData { .. } => ChunkPoll::More,
            Step::Stop => ChunkPoll::Done,
            Step::Stall => ChunkPoll::Stalled,
            Step::Chunk { .. } => ChunkPoll::Done,
        }
    }

    /// The decoded body once the input stopped, at the end of the stream (`eof`) or at a
    /// time-out; `None` where reading does not return.
    pub fn finish(self, eof: bool) -> (r: Option<Vec<u8>>)
        ensures
            match chunked_body(self.received(), eof) {
                Some(b) => r matches Some(v) && v@ == b,
                None => r is None,
            },
    {
        let mut me = self;
        let s = me.drain();
        match s {
            Step::NeedData { start, size } => {
                if !eof {
                    Some(me.result)
                } else if me.buf.len() >= start && me.buf.len() - start >= size {
                    let mut result = me.result;
                    write_bytes(&mut result, vstd::slice::slice_subrange(me.buf.as_slice(), start, start + size));
                    Some(result)
                } else {
                    None
                }
            },
            Step::Stall => None,
            _ => Some(me.result),
        }
    }
}

/// The lower-case hexadecimal text of `n`, without leading zeros.
pub open spec fn hex_text(n: nat) -> Seq<char>
    decreases n,
{
    if n < 16 {
        seq![hex_char(n)]
    } else {
        hex_text(n / 16).push(hex_char(n % 16))
    }
}

/// A hexadecimal digit is ASCII, no white space, and reads back as its value.
proof fn lemma_hex_char(d: nat)
    requires
        d < 16,
    ensures
        '0' <= hex_char(d) <= 'f',
        !is_unicode_whitespace(hex_char(d)),
        hex_char(d) != '+',
        digit_value(hex_char(d), 16) == Some(d),
        (hex_char(d) as u32) != 13,
{
}

/// The hexadecimal text of `n` is ASCII without white space, and reads back as `n`.
proof fn lemma_hex_text(n: nat)
    ensures
        hex_text(n).len() > 0,
        is_ascii_chars(hex_text(n)),
        non_ws(hex_text(n)) == hex_text(n),
        digits_value(hex_text(n), 16) == Some(n),
        hex_text(n)[0] != '+',
        forall|i: int| 0 <= i < hex_text(n).len() ==> (#[trigger] hex_text(n)[i] as u32) != 13,
    decreases n,
{
    if n < 16 {
        lemma_hex_char(n);
        assert(seq![hex_char(n)].drop_last() =~= Seq::<char>::empty());
        assert(non_ws(Seq::<char>::empty()) =~= Seq::<char>::empty());
        assert(Seq::<char>::empty().push(hex_char(n)) =~= seq![hex_char(n)]);
        assert(digits_value(Seq::<char>::empty(), 16) == Some(0nat));
        assert(digits_value(seq![hex_char(n)], 16) == Some(0 * 16 + n));
    } else {
        let h = hex_text(n / 16);
        lemma_hex_text(n / 16);
        lemma_hex_char(n % 16);
        let t = h.push(hex_char(n % 16));
        assert(t.drop_last() =~= h);
        assert(digits_value(t, 16) == Some((n / 16) * 16 + n % 16));
        assert((n / 16) * 16 + n % 16 == n) by {
            vstd::arithmetic::div_mod::lemma_fundamental_div_mod(n as int, 16);
        }
        assert(t[0] == h[0]);
        assert forall|i: int| 0 <= i < t.len() implies (#[trigger] t[i] as u32) != 13 by {
            if i < h.len() {
                assert(t[i] == h[i]);
            }
        }
        assert forall|i: int| 0 <= i < t.len() implies '\0' <= #[trigger] t[i] <= '\u{7f}' by {
            if i < h.len() {
                assert(t[i] == h[i]);
            }
        }
    }
}

/// A size line holding the hexadecimal text of `n` says `n`.
proof fn lemma_size_line_hex(n: nat)
    requires
        n <= usize::MAX,
    ensures
        size_line(encode_utf8(hex_text(n))) == SizeLine::Size(n),
{
    broadcast use vstd::utf8::group_utf8_lib;

    lemma_hex_text(n);
    let cs = hex_text(n);
    assert(decode_utf8(encode_utf8(cs)) == cs);
}

/// The first line end of `buf` from `i` is at `k` when no carriage return comes before it.
proof fn lemma_find_crlf_at(buf: Seq<u8>, i: nat, k: nat)
    requires
        i <= k,
        k + 1 < buf.len(),
        buf[k as int] == 13,
        buf[k + 1int] == 10,
        forall|j: int| i <= j < k ==> #[trigger] buf[j] != 13,
    ensures
        find_crlf_from(buf, i) == Some(k),
    decreases k - i,
{
    if i < k {
        lemma_find_crlf_at(buf, i + 1, k);
    }
}

/// The bytes of the chunk that carries `p`: its size in hexadecimal, a line end, the bytes and
/// a line end.
pub open spec fn chunk_wire(p: Seq<u8>) -> Seq<u8> {
    encode_utf8(hex_text(p.len())) + seq![13u8, 10u8] + p + seq![13u8, 10u8]
}

/// The chunked encoding of `pieces`, one chunk each, then the last (empty) chunk.
pub open spec fn chunk_encode(pieces: Seq<Seq<u8>>) -> Seq<u8>
    decreases pieces.len(),
{
    if pieces.len() == 0 {
        seq![48u8, 13u8, 10u8, 13u8, 10u8]
    } else {
        chunk_wire(pieces[0]) + chunk_encode(pieces.drop_first())
    }
}

/// The bytes of `pieces`, one after another.
pub open spec fn concat_pieces(pieces: Seq<Seq<u8>>) -> Seq<u8>
    decreases pieces.len(),
{
    if pieces.len() == 0 {
        Seq::empty()
    } else {
        pieces[0] + concat_pieces(pieces.drop_first())
    }
}

/// A chunk at the front of `buf` is read as one chunk of its bytes.
proof fn lemma_chunk_step_wire(p: Seq<u8>, rest: Seq<u8>)
    requires
        0 < p.len() <= usize::MAX,
    ensures
        ({
            let l = encode_utf8(hex_text(p.len())).len() as int;
            let buf = chunk_wire(p) + rest;
            &&& chunk_step(buf) == ChunkStep::Chunk { start: (l + 2) as nat, size: p.len() }
            &&& buf.skip(l + 2 + p.len() + 2) == rest
            &&& buf.subrange(l + 2, l + 2 + p.len()) == p
        }),
{
    broadcast use vstd::utf8::group_utf8_lib;

    let cs = hex_text(p.len());
    lemma_hex_text(p.len());
    lemma_size_line_hex(p.len());
    vstd::utf8::is_ascii_chars_encode_utf8(cs);
    let line = encode_utf8(cs);
    let l = line.len() as int;
    let buf = chunk_wire(p) + rest;
    assert(buf == line + (seq![13u8, 10u8] + p + seq![13u8, 10u8] + rest)) by {
        assert(buf =~= line + (seq![13u8, 10u8] + p + seq![13u8, 10u8] + rest));
    }
    assert forall|j: int| 0 <= j < l implies #[trigger] buf[j] != 13 by {
        assert(buf[j] == line[j]);
        assert(cs[j] as u8 == line[j]);
        assert((cs[j] as u32) != 13);
    }
    assert(buf[l] == 13);
    assert(buf[l + 1] == 10);
    lemma_find_crlf_at(buf, 0, l as nat);
    assert(buf.take(l) =~= line);
    assert(buf.skip(l + 2 + p.len() + 2) =~= rest);
    assert(buf.subrange(l + 2, l + 2 + p.len()) =~= p);
}

/// Reading the chunked encoding of `pieces` gives back their bytes, and stops at the last chunk.
proof fn lemma_dechunk_encode(pieces: Seq<Seq<u8>>, tail: Seq<u8>, result: Seq<u8>)
    requires
        forall|i: int| 0 <= i < pieces.len() ==> 0 < #[trigger] pieces[i].len() <= usize::MAX,
    ensures
        dechunk(chunk_encode(pieces) + tail, result) == (
            ChunkStep::Stop,
            result + concat_pieces(pieces),
            seq![48u8, 13u8, 10u8, 13u8, 10u8] + tail,
        ),
    decreases pieces.len(),
{
    broadcast use vstd::utf8::group_utf8_lib;

    if pieces.len() == 0 {
        let buf = seq![48u8, 13u8, 10u8, 13u8, 10u8] + tail;
        lemma_find_crlf_at(buf, 0, 1);
        lemma_size_line_hex(0);
        assert(encode_utf8(hex_text(0)) =~= seq![48u8]) by {
            vstd::utf8::is_ascii_chars_encode_utf8(hex_text(0));
            lemma_hex_text(0);
        }
        assert(buf.take(1) =~= seq![48u8]);
        assert(result + concat_pieces(pieces) =~= result);
    } else {
        let p = pieces[0];
        let rest = chunk_encode(pieces.drop_first()) + tail;
        lemma_chunk_step_wire(p, rest);
        assert(chunk_encode(pieces) + tail =~= chunk_wire(p) + rest);
        lemma_dechunk_encode(pieces.drop_first(), tail, result + p);
        assert(result + p + concat_pieces(pieces.drop_first()) =~= result + concat_pieces(pieces));
    }
}

/// What a chunked body carries is what its reader returns: the chunked encoding of nonempty
/// pieces, with anything after it, reads back as the pieces' bytes, whether the input then
/// stops at the end of the stream or at a time-out.
pub proof fn lemma_chunked_roundtrip(pieces: Seq<Seq<u8>>, tail: Seq<u8>, eof: bool)
    requires
        forall|i: int| 0 <= i < pieces.len() ==> 0 < #[trigger] pieces[i].len() <= usize::MAX,
    ensures
        chunked_body(chunk_encode(pieces) + tail, eof) == Some(concat_pieces(pieces)),
{
    lemma_dechunk_encode(pieces, tail, Seq::empty());
    assert(Seq::<u8>::empty() + concat_pieces(pieces) =~= concat_pieces(pieces));
}

} // verus!
