//! Identifiers of ships and springs.
use crate::wire::{lemma_le_roundtrip, read_u64_le, rest, write_u64_le, WireError};
use vstd::bytes::*;
use vstd::prelude::*;

verus! {

/// An identifier: a caller-chosen index, the creation time in seconds and a random pepper.
#[derive(Debug, Hash, PartialEq, Eq, Clone, Copy, Structural)]
pub struct UniqueId {
    index: u64,
    created_at: u64,
    pepper: u64,
}

/// `rand::random::<u64>()`: a random number from the thread-local generator; nothing is known
/// of it.
#[verifier::external_body]
fn random_u64() -> u64 {
    rand::random::<u64>()
}

impl UniqueId {
    /// The identifier made of `index`, the creation time `created_at` (seconds since the Unix
    /// epoch) and `pepper`.
    pub fn from_parts(index: u64, created_at: u64, pepper: u64) -> (r: UniqueId)
        ensures
            r.spec_index() == index,
            r.spec_created_at() == created_at,
            r.spec_pepper() == pepper,
    {
        UniqueId { index, created_at, pepper }
    }

    /// A fresh identifier for `index`, stamped with the current time by the system clock (as
    /// `sys_now` reads it) and a random pepper.
    pub fn new(index: u64) -> (r: UniqueId)
        ensures
            r.spec_index() == index,
            r.wire() == spec_u64_to_le_bytes(index) + spec_u64_to_le_bytes(r.spec_created_at())
                + spec_u64_to_le_bytes(r.spec_pepper()),
    {
        let created_at = crate::sys_now();
        let pepper = random_u64();
        UniqueId::from_parts(index, created_at, pepper)
    }

    /// The index the identifier was created with.
    pub closed spec fn spec_index(self) -> u64 {
        self.index
    }

    /// The creation time the identifier was stamped with.
    pub closed spec fn spec_created_at(self) -> u64 {
        self.created_at
    }

    /// The random pepper of the identifier.
    pub closed spec fn spec_pepper(self) -> u64 {
        self.pepper
    }

    /// Two identifiers are the same exactly when their index, creation time and pepper are.
    pub proof fn lemma_same_parts(self, other: UniqueId)
        ensures
            (self == other) <==> (self.spec_index() == other.spec_index() && self.spec_created_at()
                == other.spec_created_at() && self.spec_pepper() == other.spec_pepper()),
    {
    }

    /// The 24 bytes that encode the identifier: index, creation time and pepper, each little-endian.
    pub open spec fn wire(self) -> Seq<u8> {
        spec_u64_to_le_bytes(self.spec_index()) + spec_u64_to_le_bytes(self.spec_created_at())
            + spec_u64_to_le_bytes(self.spec_pepper())
    }

    /// Decoding of an identifier from the front of `s`, with the number of bytes it took.
    pub closed spec fn parse(s: Seq<u8>) -> Result<(UniqueId, nat), WireError> {
        if s.len() >= 24 {
            Ok(
                (
                    UniqueId {
                        index: spec_u64_from_le_bytes(s.subrange(0, 8)),
                        created_at: spec_u64_from_le_bytes(s.subrange(8, 16)),
                        pepper: spec_u64_from_le_bytes(s.subrange(16, 24)),
                    },
                    24,
                ),
            )
        } else {
            Err(WireError::Eof)
        }
    }

    /// An identifier takes 24 bytes, and decoding what was encoded gives the identifier back,
    /// whatever follows it.
    pub proof fn lemma_wire_parse(self, tail: Seq<u8>)
        ensures
            self.wire().len() == 24,
            UniqueId::parse(self.wire() + tail) == Ok::<(UniqueId, nat), WireError>((self, 24)),
    {
        lemma_le_roundtrip();
        let w = self.wire() + tail;
        let a = spec_u64_to_le_bytes(self.index);
        let b = spec_u64_to_le_bytes(self.created_at);
        let c = spec_u64_to_le_bytes(self.pepper);
        assert(w.subrange(0, 8) =~= a);
        assert(w.subrange(8, 16) =~= b);
        assert(w.subrange(16, 24) =~= c);
    }

    /// Decoding reads the index, creation time and pepper as little-endian numbers from the first
    /// 24 bytes, and encoding what was decoded gives those 24 bytes back.
    pub proof fn lemma_parse_wire(s: Seq<u8>)
        requires
            s.len() >= 24,
        ensures
            UniqueId::parse(s) matches Ok((id, n)) && n == 24 && id.spec_index()
                == spec_u64_from_le_bytes(s.subrange(0, 8)) && id.spec_created_at()
                == spec_u64_from_le_bytes(s.subrange(8, 16)) && id.spec_pepper()
                == spec_u64_from_le_bytes(s.subrange(16, 24)) && id.wire() == s.take(24),
    {
        lemma_auto_spec_u64_to_from_le_bytes();
        let a = s.subrange(0, 8);
        let b = s.subrange(8, 16);
        let c = s.subrange(16, 24);
        assert(spec_u64_to_le_bytes(spec_u64_from_le_bytes(a)) == a);
        assert(spec_u64_to_le_bytes(spec_u64_from_le_bytes(b)) == b);
        assert(spec_u64_to_le_bytes(spec_u64_from_le_bytes(c)) == c);
        assert(a + b + c =~= s.take(24));
    }

    /// Decoding fails exactly when fewer than 24 bytes are left, and then with `Eof`.
    pub proof fn lemma_parse_len(s: Seq<u8>)
        ensures
            UniqueId::parse(s) is Err <==> s.len() < 24,
            UniqueId::parse(s) is Err ==> UniqueId::parse(s) == Err::<(UniqueId, nat), WireError>(
                WireError::Eof,
            ),
            UniqueId::parse(s) matches Ok((_, n)) ==> n == 24,
    {
    }

    /// Appends the 24 bytes of the identifier to `out`.
    pub fn write(&self, out: &mut Vec<u8>)
        ensures
            final(out)@ == old(out)@ + self.wire(),
    {
        write_u64_le(out, self.index);
        write_u64_le(out, self.created_at);
        write_u64_le(out, self.pepper);
        assert(final(out)@ =~= old(out)@ + self.wire());
    }

    /// Decodes an identifier from `buf` at `pos`.
    pub fn read(buf: &[u8], pos: usize) -> (r: Result<UniqueId, WireError>)
        requires
            pos <= buf@.len(),
        ensures
            match UniqueId::parse(rest(buf@, pos)) {
                Ok((v, _)) => r == Ok::<UniqueId, WireError>(v),
                Err(e) => r == Err::<UniqueId, WireError>(e),
            },
    {
        let ghost s = rest(buf@, pos);
        if buf.len() - pos < 24 {
            return Err(WireError::Eof);
        }
        let index = read_u64_le(buf, pos);
        let created_at = read_u64_le(buf, pos + 8);
        let pepper = read_u64_le(buf, pos + 16);
        assert(rest(buf@, pos).subrange(0, 8) =~= rest(buf@, pos).take(8));
        assert(rest(buf@, (pos + 8) as usize).take(8) =~= s.subrange(8, 16));
        assert(rest(buf@, (pos + 16) as usize).take(8) =~= s.subrange(16, 24));
        match (index, created_at, pepper) {
            (Ok(index), Ok(created_at), Ok(pepper)) => Ok(UniqueId { index, created_at, pepper }),
            _ => Err(WireError::Eof),
        }
    }
}

} // verus!
