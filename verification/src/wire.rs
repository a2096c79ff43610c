//! Little-endian primitives of the shipment wire format.
use vstd::bytes::*;
use vstd::slice::slice_subrange;
use vstd::slice::slice_to_vec;
use vstd::prelude::*;

verus! {

/// Why a byte buffer could not be decoded.
#[derive(Debug, Clone, Copy, PartialEq, Eq, Structural)]
pub enum WireError {
    /// The buffer ended before the value was complete.
    Eof,
    /// A host started with an unknown address type.
    InvalidHostKind,
    /// A domain name was not valid UTF-8.
    InvalidDomain,
}

/// One byte at the front of `s`.
pub open spec fn parse_u8(s: Seq<u8>) -> Result<(u8, nat), WireError> {
    if s.len() >= 1 {
        Ok((s[0], 1))
    } else {
        Err(WireError::Eof)
    }
}

/// A little-endian `u16` at the front of `s`.
pub open spec fn parse_u16_le(s: Seq<u8>) -> Result<(u16, nat), WireError> {
    if s.len() >= 2 {
        Ok((spec_u16_from_le_bytes(s.take(2)), 2))
    } else {
        Err(WireError::Eof)
    }
}

/// A little-endian `u32` at the front of `s`.
pub open spec fn parse_u32_le(s: Seq<u8>) -> Result<(u32, nat), WireError> {
    if s.len() >= 4 {
        Ok((spec_u32_from_le_bytes(s.take(4)), 4))
    } else {
        Err(WireError::Eof)
    }
}

/// A little-endian `u64` at the front of `s`.
pub open spec fn parse_u64_le(s: Seq<u8>) -> Result<(u64, nat), WireError> {
    if s.len() >= 8 {
        Ok((spec_u64_from_le_bytes(s.take(8)), 8))
    } else {
        Err(WireError::Eof)
    }
}

/// The encoding of a flag: one byte, 1 for true and 0 for false.
pub open spec fn flag_byte(b: bool) -> u8 {
    if b {
        1
    } else {
        0
    }
}

/// Rest of `s` from position `pos`.
pub open spec fn rest(s: Seq<u8>, pos: usize) -> Seq<u8> {
    s.subrange(pos as int, s.len() as int)
}

/// Reading back what was written, for each primitive.
pub proof fn lemma_le_roundtrip()
    ensures
        forall|x: u16| #[trigger] spec_u16_to_le_bytes(x).len() == 2
            && spec_u16_from_le_bytes(spec_u16_to_le_bytes(x)) == x,
        forall|x: u32| #[trigger] spec_u32_to_le_bytes(x).len() == 4
            && spec_u32_from_le_bytes(spec_u32_to_le_bytes(x)) == x,
        forall|x: u64| #[trigger] spec_u64_to_le_bytes(x).len() == 8
            && spec_u64_from_le_bytes(spec_u64_to_le_bytes(x)) == x,
{
    lemma_auto_spec_u16_to_from_le_bytes();
    lemma_auto_spec_u32_to_from_le_bytes();
    lemma_auto_spec_u64_to_from_le_bytes();
}

/// The first `a.len()` bytes of `a + b` are `a`, and the remainder is `b`.
pub proof fn lemma_split<T>(a: Seq<T>, b: Seq<T>)
    ensures
        (a + b).take(a.len() as int) == a,
        (a + b).skip(a.len() as int) == b,
{
    assert((a + b).take(a.len() as int) =~= a);
    assert((a + b).skip(a.len() as int) =~= b);
}

/// Reads one byte at `pos`.
pub fn read_u8(buf: &[u8], pos: usize) -> (r: Result<u8, WireError>)
    requires
        pos <= buf@.len(),
    ensures
        match parse_u8(rest(buf@, pos)) {
            Ok((v, _)) => r == Ok::<u8, WireError>(v),
            Err(e) => r == Err::<u8, WireError>(e),
        },
{
    if buf.len() - pos < 1 {
        Err(WireError::Eof)
    } else {
        Ok(buf[pos])
    }
}

/// Reads a little-endian `u16` at `pos`.
pub fn read_u16_le(buf: &[u8], pos: usize) -> (r: Result<u16, WireError>)
    requires
        pos <= buf@.len(),
    ensures
        match parse_u16_le(rest(buf@, pos)) {
            Ok((v, _)) => r == Ok::<u16, WireError>(v),
            Err(e) => r == Err::<u16, WireError>(e),
        },
{
    if buf.len() - pos < 2 {
        Err(WireError::Eof)
    } else {
        let s = slice_subrange(buf, pos, pos + 2);
        assert(s@ =~= rest(buf@, pos).take(2));
        Ok(u16_from_le_bytes(s))
    }
}

/// Reads a little-endian `u32` at `pos`.
pub fn read_u32_le(buf: &[u8], pos: usize) -> (r: Result<u32, WireError>)
    requires
        pos <= buf@.len(),
    ensures
        match parse_u32_le(rest(buf@, pos)) {
            Ok((v, _)) => r == Ok::<u32, WireError>(v),
            Err(e) => r == Err::<u32, WireError>(e),
        },
{
    if buf.len() - pos < 4 {
        Err(WireError::Eof)
    } else {
        let s = slice_subrange(buf, pos, pos + 4);
        assert(s@ =~= rest(buf@, pos).take(4));
        Ok(u32_from_le_bytes(s))
    }
}

/// Reads a little-endian `u64` at `pos`.
pub fn read_u64_le(buf: &[u8], pos: usize) -> (r: Result<u64, WireError>)
    requires
        pos <= buf@.len(),
    ensures
        match parse_u64_le(rest(buf@, pos)) {
            Ok((v, _)) => r == Ok::<u64, WireError>(v),
            Err(e) => r == Err::<u64, WireError>(e),
        },
{
    if buf.len() - pos < 8 {
        Err(WireError::Eof)
    } else {
        let s = slice_subrange(buf, pos, pos + 8);
        assert(s@ =~= rest(buf@, pos).take(8));
        Ok(u64_from_le_bytes(s))
    }
}

/// Appends one byte.
pub fn write_u8(out: &mut Vec<u8>, v: u8)
    ensures
        final(out)@ == old(out)@ + seq![v],
{
    out.push(v);
}

/// Appends a `u16` in little-endian order.
pub fn write_u16_le(out: &mut Vec<u8>, v: u16)
    ensures
        final(out)@ == old(out)@ + spec_u16_to_le_bytes(v),
{
    let mut b = u16_to_le_bytes(v);
    out.append(&mut b);
}

/// Appends a `u32` in little-endian order.
pub fn write_u32_le(out: &mut Vec<u8>, v: u32)
    ensures
        final(out)@ == old(out)@ + spec_u32_to_le_bytes(v),
{
    let mut b = u32_to_le_bytes(v);
    out.append(&mut b);
}

/// Appends a `u64` in little-endian order.
pub fn write_u64_le(out: &mut Vec<u8>, v: u64)
    ensures
        final(out)@ == old(out)@ + spec_u64_to_le_bytes(v),
{
    let mut b = u64_to_le_bytes(v);
    out.append(&mut b);
}

/// Appends the bytes of `b`.
pub fn write_bytes(out: &mut Vec<u8>, b: &[u8])
    ensures
        final(out)@ == old(out)@ + b@,
{
    let mut v = slice_to_vec(b);
    out.append(&mut v);
}

} // verus!
