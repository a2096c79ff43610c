//! Target hosts of SOCKS connections and their wire form.
use crate::wire::{parse_u8, read_u8, rest, write_bytes, write_u8, WireError};
use crate::text::{decimal, hex2, push_char, push_decimal, push_hex2, push_str};
use vstd::prelude::*;
use vstd::utf8::{decode_utf8, encode_utf8, valid_utf8};

verus! {

broadcast use {
    vstd::utf8::encode_utf8_valid_utf8,
    vstd::utf8::encode_utf8_decode_utf8,
    vstd::utf8::decode_utf8_encode_utf8,
};

/// The host part of a SOCKS request: an IPv4 or IPv6 address, or a domain name.
#[derive(Debug, Clone, PartialEq, Eq)]
pub enum SocksHost {
    Ipv4([u8; 4]),
    Ipv6([u8; 16]),
    Domain(String),
}

/// The mathematical value of a host.
pub enum HostView {
    Ipv4(Seq<u8>),
    Ipv6(Seq<u8>),
    Domain(Seq<char>),
}

impl View for SocksHost {
    type V = HostView;

    open spec fn view(&self) -> HostView {
        match self {
            SocksHost::Ipv4(a) => HostView::Ipv4(a@),
            SocksHost::Ipv6(a) => HostView::Ipv6(a@),
            SocksHost::Domain(d) => HostView::Domain(d@),
        }
    }
}

/// Address type byte of an IPv4 host.
pub const ATYP_IPV4: u8 = 0x01;

/// Address type byte of a domain host.
pub const ATYP_DOMAIN: u8 = 0x03;

/// Address type byte of an IPv6 host.
pub const ATYP_IPV6: u8 = 0x04;

/// A host value that the wire form can carry: addresses of the right size, and a domain of
/// at most 255 bytes in UTF-8.
pub open spec fn host_wf(h: HostView) -> bool {
    match h {
        HostView::Ipv4(a) => a.len() == 4,
        HostView::Ipv6(a) => a.len() == 16,
        HostView::Domain(c) => encode_utf8(c).len() <= 255,
    }
}

/// The wire form of a host: the address type byte, then the 4 or 16 address bytes, or a
/// length byte and the UTF-8 bytes of the domain.
pub open spec fn host_wire(h: HostView) -> Seq<u8> {
    match h {
        HostView::Ipv4(a) => seq![ATYP_IPV4] + a,
        HostView::Ipv6(a) => seq![ATYP_IPV6] + a,
        HostView::Domain(c) => seq![ATYP_DOMAIN, encode_utf8(c).len() as u8] + encode_utf8(c),
    }
}

/// Decoding of a host from the front of `s`, with the number of bytes it took.
pub open spec fn parse_host(s: Seq<u8>) -> Result<(HostView, nat), WireError> {
    match parse_u8(s) {
        Err(e) => Err(e),
        Ok((kind, _)) => if kind == ATYP_IPV4 {
            if s.len() >= 5 {
                Ok((HostView::Ipv4(s.subrange(1, 5)), 5))
            } else {
                Err(WireError::Eof)
            }
        } else if kind == ATYP_IPV6 {
            if s.len() >= 17 {
                Ok((HostView::Ipv6(s.subrange(1, 17)), 17))
            } else {
                Err(WireError::Eof)
            }
        } else if kind == ATYP_DOMAIN {
            if s.len() >= 2 && s.len() >= 2 + s[1] {
                let b = s.subrange(2, 2 + s[1]);
                if valid_utf8(b) {
                    Ok((HostView::Domain(decode_utf8(b)), (2 + s[1]) as nat))
                } else {
                    Err(WireError::InvalidDomain)
                }
            } else {
                Err(WireError::Eof)
            }
        } else {
            Err(WireError::InvalidHostKind)
        },
    }
}

/// How many bytes a reader that reads a host piece by piece has asked for once it has seen `s`:
/// the address type byte, then the address, or the length byte and then the domain.
pub open spec fn host_need(s: Seq<u8>) -> nat {
    if s.len() == 0 {
        1
    } else if s[0] == ATYP_IPV4 {
        5
    } else if s[0] == ATYP_IPV6 {
        17
    } else if s[0] == ATYP_DOMAIN {
        if s.len() < 2 {
            2
        } else {
            (2 + s[1]) as nat
        }
    } else {
        1
    }
}

/// Decoding what was encoded gives the host back, whatever follows it.
pub proof fn lemma_host_roundtrip(h: HostView, tail: Seq<u8>)
    requires
        host_wf(h),
    ensures
        parse_host(host_wire(h) + tail) == Ok::<(HostView, nat), WireError>(
            (h, host_wire(h).len()),
        ),
{
    let w = host_wire(h) + tail;
    match h {
        HostView::Ipv4(a) => {
            assert(w.subrange(1, 5) =~= a);
        },
        HostView::Ipv6(a) => {
            assert(w.subrange(1, 17) =~= a);
        },
        HostView::Domain(c) => {
            let b = encode_utf8(c);
            assert(w[1] == b.len() as u8);
            assert(w.subrange(2, 2 + b.len() as int) =~= b);
        },
    }
}

/// A decoded host can be encoded again, and takes as many bytes as its wire form.
pub proof fn lemma_host_parse_wf(s: Seq<u8>)
    ensures
        parse_host(s) matches Ok((h, n)) ==> host_wf(h) && n == host_wire(h).len() && n
            <= s.len(),
{
    if let Ok((h, n)) = parse_host(s) {
        if let HostView::Domain(c) = h {
            let b = s.subrange(2, 2 + s[1]);
            assert(encode_utf8(decode_utf8(b)) == b);
        }
    }
}

/// Decoding stops for want of bytes exactly while fewer than `host_need` bytes are there.
pub proof fn lemma_host_need(s: Seq<u8>)
    ensures
        parse_host(s) == Err::<(HostView, nat), WireError>(WireError::Eof) <==> s.len()
            < host_need(s),
        host_need(s) >= 1,
        parse_host(s) matches Ok((_, n)) ==> n == host_need(s),
{
}

/// `String::from_utf8`: the bytes as a string when they are valid UTF-8.
#[verifier::external_body]
pub(crate) fn string_from_utf8(bytes: Vec<u8>) -> (res: Option<String>)
    ensures
        res is Some <==> valid_utf8(bytes@),
        res matches Some(s) ==> s@ == decode_utf8(bytes@),
{
    match String::from_utf8(bytes) {
        Ok(s) => Some(s),
        Err(_) => None,
    }
}

/// Dotted decimal text of an IPv4 address.
pub open spec fn ipv4_text(a: Seq<u8>) -> Seq<char> {
    decimal(a[0] as nat) + seq!['.'] + decimal(a[1] as nat) + seq!['.'] + decimal(a[2] as nat)
        + seq!['.'] + decimal(a[3] as nat)
}

/// The first `k` groups of an IPv6 address, each two bytes in hexadecimal followed by `:`.
pub open spec fn ipv6_groups(a: Seq<u8>, k: nat) -> Seq<char>
    decreases k,
{
    if k == 0 {
        Seq::empty()
    } else {
        ipv6_groups(a, (k - 1) as nat) + hex2(a[2 * k - 2]) + hex2(a[2 * k - 1]) + seq![':']
    }
}

/// The first `k` groups of an IPv6 address take five characters each: group `g` is the two bytes
/// `2g` and `2g + 1` in hexadecimal, then `:`.
proof fn lemma_ipv6_groups(a: Seq<u8>, k: nat)
    requires
        k <= 8,
        a.len() == 16,
    ensures
        ipv6_groups(a, k).len() == 5 * k,
        forall|g: int|
            0 <= g < k ==> #[trigger] ipv6_groups(a, k).subrange(5 * g, 5 * g + 4) == hex2(a[2 * g])
                + hex2(a[2 * g + 1]) && ipv6_groups(a, k)[5 * g + 4] == ':',
    decreases k,
{
    if k > 0 {
        let prev = ipv6_groups(a, (k - 1) as nat);
        lemma_ipv6_groups(a, (k - 1) as nat);
        let t = ipv6_groups(a, k);
        let last = hex2(a[2 * k - 2]) + hex2(a[2 * k - 1]);
        assert(t == prev + last + seq![':']);
        assert forall|g: int| 0 <= g < k implies #[trigger] t.subrange(5 * g, 5 * g + 4) == hex2(
            a[2 * g],
        ) + hex2(a[2 * g + 1]) && t[5 * g + 4] == ':' by {
            if g < k - 1 {
                assert(t.subrange(5 * g, 5 * g + 4) =~= prev.subrange(5 * g, 5 * g + 4));
                assert(t[5 * g + 4] == prev[5 * g + 4]);
            } else {
                assert(t.subrange(5 * g, 5 * g + 4) =~= last);
            }
        }
    }
}

/// The address text of an IPv6 host carries every byte of the address: eight groups of four
/// hexadecimal digits, group `g` being bytes `2g` and `2g + 1`, each group followed by `:`, then
/// the port in decimal.
pub proof fn lemma_ipv6_addr_text(a: Seq<u8>, port: u16)
    requires
        a.len() == 16,
    ensures
        addr_text(HostView::Ipv6(a), port).len() == 40 + decimal(port as nat).len(),
        forall|g: int|
            0 <= g < 8 ==> #[trigger] addr_text(HostView::Ipv6(a), port).subrange(5 * g, 5 * g + 4)
                == hex2(a[2 * g]) + hex2(a[2 * g + 1]) && addr_text(HostView::Ipv6(a), port)[5 * g
                + 4] == ':',
        addr_text(HostView::Ipv6(a), port).skip(40) == decimal(port as nat),
{
    lemma_ipv6_groups(a, 8);
    let g8 = ipv6_groups(a, 8);
    let t = addr_text(HostView::Ipv6(a), port);
    assert forall|g: int| 0 <= g < 8 implies #[trigger] t.subrange(5 * g, 5 * g + 4) == hex2(
        a[2 * g],
    ) + hex2(a[2 * g + 1]) && t[5 * g + 4] == ':' by {
        assert(g8.subrange(5 * g, 5 * g + 4) == hex2(a[2 * g]) + hex2(a[2 * g + 1]));
        assert(t.subrange(5 * g, 5 * g + 4) =~= g8.subrange(5 * g, 5 * g + 4));
        assert(t[5 * g + 4] == g8[5 * g + 4]);
    }
    assert(t.skip(40) =~= decimal(port as nat));
}

/// The `host:port` text used to connect to a host.
pub open spec fn addr_text(h: HostView, port: u16) -> Seq<char> {
    match h {
        HostView::Ipv4(a) => ipv4_text(a) + seq![':'] + decimal(port as nat),
        HostView::Domain(c) => c + seq![':'] + decimal(port as nat),
        HostView::Ipv6(a) => ipv6_groups(a, 8) + decimal(port as nat),
    }
}

/// The short text shown for a host: the IPv4 address, the domain, or `::` and the last two
/// bytes of an IPv6 address.
pub open spec fn host_text(h: HostView) -> Seq<char> {
    match h {
        HostView::Ipv4(a) => ipv4_text(a),
        HostView::Domain(c) => c,
        HostView::Ipv6(a) => seq![':', ':'] + hex2(a[14]) + seq![':'] + hex2(a[15]),
    }
}

fn push_ipv4(s: &mut String, ip: &[u8; 4])
    ensures
        final(s)@ == old(s)@ + ipv4_text(ip@),
{
    push_decimal(s, ip[0] as u64);
    push_char(s, '.');
    push_decimal(s, ip[1] as u64);
    push_char(s, '.');
    push_decimal(s, ip[2] as u64);
    push_char(s, '.');
    push_decimal(s, ip[3] as u64);
    assert(final(s)@ =~= old(s)@ + ipv4_text(ip@));
}

impl SocksHost {
    /// The `host:port` text used to connect to this host.
    pub fn to_addr(&self, port: u16) -> (r: String)
        ensures
            r@ == addr_text(self@, port),
    {
        let mut s = String::new();
        match self {
            SocksHost::Ipv4(ip) => {
                push_ipv4(&mut s, ip);
                push_char(&mut s, ':');
            },
            SocksHost::Domain(dom) => {
                push_str(&mut s, dom.as_str());
                push_char(&mut s, ':');
            },
            SocksHost::Ipv6(ip) => {
                let ghost a = ip@;
                assert(s@ =~= ipv6_groups(a, 0));
                for k in 0..8usize
                    invariant
                        a == ip@,
                        a.len() == 16,
                        s@ == ipv6_groups(a, k as nat),
                {
                    push_hex2(&mut s, ip[2 * k]);
                    push_hex2(&mut s, ip[2 * k + 1]);
                    push_char(&mut s, ':');
                    assert(s@ =~= ipv6_groups(a, (k + 1) as nat));
                }
            },
        }
        push_decimal(&mut s, port as u64);
        assert(s@ =~= addr_text(self@, port));
        s
    }

    /// The short text shown for this host.
    pub fn to_text(&self) -> (r: String)
        ensures
            r@ == host_text(self@),
    {
        let mut s = String::new();
        match self {
            SocksHost::Ipv4(ip) => {
                push_ipv4(&mut s, ip);
            },
            SocksHost::Domain(dom) => {
                push_str(&mut s, dom.as_str());
            },
            SocksHost::Ipv6(ip) => {
                push_char(&mut s, ':');
                push_char(&mut s, ':');
                push_hex2(&mut s, ip[14]);
                push_char(&mut s, ':');
                push_hex2(&mut s, ip[15]);
            },
        }
        assert(s@ =~= host_text(self@));
        s
    }

    /// An equal copy of the host.
    pub fn duplicate(&self) -> (r: SocksHost)
        ensures
            r@ == self@,
    {
        match self {
            SocksHost::Ipv4(ip) => SocksHost::Ipv4(*ip),
            SocksHost::Ipv6(ip) => SocksHost::Ipv6(*ip),
            SocksHost::Domain(dom) => SocksHost::Domain(dom.clone()),
        }
    }

    /// Appends the wire form of the host to `out`. A domain longer than 255 bytes has its
    /// length byte truncated, as the format cannot carry it.
    pub fn write(&self, out: &mut Vec<u8>)
        ensures
            final(out)@ == old(out)@ + host_wire(self@),
    {
        match self {
            SocksHost::Ipv4(v4) => {
                write_u8(out, ATYP_IPV4);
                write_bytes(out, v4.as_slice());
            },
            SocksHost::Ipv6(v6) => {
                write_u8(out, ATYP_IPV6);
                write_bytes(out, v6.as_slice());
            },
            SocksHost::Domain(domain) => {
                let bytes = domain.as_str().as_bytes();
                write_u8(out, ATYP_DOMAIN);
                write_u8(out, bytes.len() as u8);
                write_bytes(out, bytes);
            },
        }
        assert(final(out)@ =~= old(out)@ + host_wire(self@));
    }

    /// Decodes a host from `buf` at `pos`, with the number of bytes it took.
    pub fn read(buf: &[u8], pos: usize) -> (r: Result<(SocksHost, usize), WireError>)
        requires
            pos <= buf@.len(),
        ensures
            match parse_host(rest(buf@, pos)) {
                Ok((h, n)) => r matches Ok((v, m)) && v@ == h && m == n,
                Err(e) => r == Err::<(SocksHost, usize), WireError>(e),
            },
    {
        let ghost s = rest(buf@, pos);
        let kind = match read_u8(buf, pos) {
            Ok(k) => k,
            Err(e) => return Err(e),
        };
        let avail = buf.len() - pos;
        if kind == ATYP_IPV4 {
            if avail < 5 {
                return Err(WireError::Eof);
            }
            let a = [buf[pos + 1], buf[pos + 2], buf[pos + 3], buf[pos + 4]];
            assert(a@ =~= s.subrange(1, 5));
            Ok((SocksHost::Ipv4(a), 5))
        } else if kind == ATYP_IPV6 {
            if avail < 17 {
                return Err(WireError::Eof);
            }
            let a = [
                buf[pos + 1],
                buf[pos + 2],
                buf[pos + 3],
                buf[pos + 4],
                buf[pos + 5],
                buf[pos + 6],
                buf[pos + 7],
                buf[pos + 8],
                buf[pos + 9],
                buf[pos + 10],
                buf[pos + 11],
                buf[pos + 12],
                buf[pos + 13],
                buf[pos + 14],
                buf[pos + 15],
                buf[pos + 16],
            ];
            assert(a@ =~= s.subrange(1, 17));
            Ok((SocksHost::Ipv6(a), 17))
        } else if kind == ATYP_DOMAIN {
            if avail < 2 {
                return Err(WireError::Eof);
            }
            let len = buf[pos + 1] as usize;
            if avail - 2 < len {
                return Err(WireError::Eof);
            }
            let bytes = vstd::slice::slice_to_vec(
                vstd::slice::slice_subrange(buf, pos + 2, pos + 2 + len),
            );
            assert(bytes@ =~= s.subrange(2, 2 + s[1]));
            match string_from_utf8(bytes) {
                Some(d) => Ok((SocksHost::Domain(d), 2 + len)),
                None => Err(WireError::InvalidDomain),
            }
        } else {
            Err(WireError::InvalidHostKind)
        }
    }

    /// How many bytes of a host a piece-by-piece reader needs, having read `buf`.
    pub fn read_len(buf: &[u8]) -> (n: usize)
        ensures
            n == host_need(buf@),
    {
        if buf.len() == 0 {
            1
        } else if buf[0] == ATYP_IPV4 {
            5
        } else if buf[0] == ATYP_IPV6 {
            17
        } else if buf[0] == ATYP_DOMAIN {
            if buf.len() < 2 {
                2
            } else {
                2 + buf[1] as usize
            }
        } else {
            1
        }
    }
}

} // verus!
