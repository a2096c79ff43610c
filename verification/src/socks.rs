//! The SOCKS5 side of the client: the decisions of the greeting and of the CONNECT request.
use vstd::prelude::*;

verus! {

/// `std::io::Error`, carried through as an opaque value.
#[verifier::external_type_specification]
#[verifier::external_body]
pub struct ExIoError(std::io::Error);

/// Why a SOCKS connection or a relay request failed.
#[derive(Debug)]
pub enum EverError {
    SocksVersionMismatch,
    SocksNoAcceptableMethod,
    SocksAuthRequired,
    SocksInvalidConnect,
    InvalidDnsNameError,
    RequestFailed,
    ConnectionFailed,
    ReadTimeout,
    Eof,
    InvalidHttpResponse,
    InvalidGzip,
    InvalidBody,
    Io(std::io::Error),
}

impl From<std::io::Error> for EverError {
    fn from(value: std::io::Error) -> (r: Self) {
        EverError::Io(value)
    }
}

impl vstd::std_specs::convert::FromSpecImpl<std::io::Error> for EverError {
    open spec fn obeys_from_spec() -> bool {
        true
    }

    open spec fn from_spec(v: std::io::Error) -> Self {
        EverError::Io(v)
    }
}

/// The protocol version this proxy speaks.
pub const SOCKS_VERSION: u8 = 0x05;

/// Command byte of a TCP CONNECT request.
pub const CMD_CONNECT: u8 = 0x01;

/// Command byte of a UDP ASSOCIATE request.
pub const CMD_UDP_CONNECT: u8 = 0x03;

/// Method byte of "no authentication".
pub const METHOD_NO_AUTH: u8 = 0x00;

/// Method byte of username/password authentication.
pub const METHOD_USER_PASS: u8 = 0x02;

/// Method byte that tells the client that none of its methods is acceptable.
pub const METHOD_NONE_ACCEPTABLE: u8 = 0xFF;

/// The 255-byte method table as the proxy holds it: the methods the client offered, then zeros.
pub open spec fn method_table(methods: Seq<u8>) -> Seq<u8> {
    methods + Seq::new((255 - methods.len()) as nat, |i: int| 0u8)
}

/// What the proxy answers to the methods a client offered.
pub open spec fn spec_negotiate(methods: Seq<u8>) -> (Option<[u8; 2]>, Result<(), ()>) {
    if method_table(methods).contains(METHOD_NO_AUTH) {
        (Some([SOCKS_VERSION, METHOD_NO_AUTH]), Ok(()))
    } else if !method_table(methods).contains(METHOD_USER_PASS) {
        (Some([SOCKS_VERSION, METHOD_NONE_ACCEPTABLE]), Err(()))
    } else {
        (None, Err(()))
    }
}

/// Checks the two-byte greeting header and returns how many method bytes follow it.
pub fn greeting(header: [u8; 2]) -> (r: Result<usize, EverError>)
    ensures
        header[0] == SOCKS_VERSION ==> (r matches Ok(n) && n == header[1]),
        header[0] != SOCKS_VERSION ==> r matches Err(EverError::SocksVersionMismatch),
{
    if header[0] != SOCKS_VERSION {
        return Err(EverError::SocksVersionMismatch);
    }
    Ok(header[1] as usize)
}

/// Chooses the authentication method for the offered `methods`: the reply to send, if any,
/// and whether the greeting succeeded. The proxy looks for a method in its whole 255-byte
/// table, so "no authentication" is chosen whenever fewer than 255 methods were offered.
pub fn negotiate(methods: &[u8]) -> (r: (Option<[u8; 2]>, Result<(), EverError>))
    requires
        methods@.len() <= 255,
    ensures
        r.0 == spec_negotiate(methods@).0,
        spec_negotiate(methods@).1 is Ok <==> r.1 is Ok,
        r.1 matches Err(e) ==> (if r.0 is Some {
            e is SocksNoAcceptableMethod
        } else {
            e is SocksAuthRequired
        }),
{
    let ghost table = method_table(methods@);
    let n = methods.len();
    let mut has_no_auth = n < 255;
    let mut has_user_pass = false;
    let mut i: usize = 0;
    while i < n
        invariant
            n == methods@.len() <= 255,
            i <= n,
            table == method_table(methods@),
            has_no_auth <==> (n < 255 || exists|j: int| 0 <= j < i && methods@[j] == METHOD_NO_AUTH),
            has_user_pass <==> exists|j: int| 0 <= j < i && methods@[j] == METHOD_USER_PASS,
        decreases n - i,
    {
        if methods[i] == METHOD_NO_AUTH {
            has_no_auth = true;
        }
        if methods[i] == METHOD_USER_PASS {
            has_user_pass = true;
        }
        i = i + 1;
    }
    proof {
        if n < 255 {
            assert(table[n as int] == 0u8);
        }
        if has_no_auth {
            if n == 255 {
                let j = choose|j: int| 0 <= j < n && methods@[j] == METHOD_NO_AUTH;
                assert(table[j] == methods@[j]);
            }
        } else {
            assert forall|k: int| 0 <= k < table.len() implies table[k] != METHOD_NO_AUTH by {
                assert(table[k] == methods@[k]);
            }
        }
        if has_user_pass {
            let j = choose|j: int| 0 <= j < n && methods@[j] == METHOD_USER_PASS;
            assert(table[j] == methods@[j]);
        } else if !has_no_auth {
            assert forall|k: int| 0 <= k < table.len() implies table[k] != METHOD_USER_PASS by {
                assert(table[k] == methods@[k]);
            }
        }
    }
    if has_no_auth {
        return (Some([SOCKS_VERSION, METHOD_NO_AUTH]), Ok(()));
    }
    if !has_user_pass {
        return (Some([SOCKS_VERSION, METHOD_NONE_ACCEPTABLE]), Err(EverError::SocksNoAcceptableMethod));
    }
    (None, Err(EverError::SocksAuthRequired))
}

/// Checks the three-byte request header (version, command, reserved byte). Only CONNECT is
/// served; UDP ASSOCIATE and every other command are refused.
pub fn request_header(header: [u8; 3]) -> (r: Result<(), EverError>)
    ensures
        r is Ok <==> header[0] == SOCKS_VERSION && header[2] == 0 && header[1] == CMD_CONNECT,
        r matches Err(e) ==> e is SocksInvalidConnect,
{
    if header[0] != SOCKS_VERSION || header[2] != 0 {
        return Err(EverError::SocksInvalidConnect);
    }
    if header[1] == CMD_UDP_CONNECT {
        return Err(EverError::SocksInvalidConnect);
    } else if header[1] == CMD_CONNECT {
    } else {
        return Err(EverError::SocksInvalidConnect);
    }
    Ok(())
}

/// The port of a request, sent in network byte order.
pub fn port_from_be(b: [u8; 2]) -> (port: u16)
    ensures
        port == b[0] * 256 + b[1],
{
    (b[0] as u16) * 256 + (b[1] as u16)
}

/// The reply that tells the client its CONNECT succeeded: bound address 0.0.0.0 and the
/// given port in network byte order.
pub fn success_reply(port: u16) -> (r: [u8; 10])
    ensures
        r@ == seq![SOCKS_VERSION, 0u8, 0u8, crate::utils::ATYP_IPV4, 0u8, 0u8, 0u8, 0u8, (port / 256) as u8, (port % 256) as u8],
{
    [
        SOCKS_VERSION,
        0x00,
        0x00,
        crate::utils::ATYP_IPV4,
        0,
        0,
        0,
        0,
        (port / 256) as u8,
        (port % 256) as u8,
    ]
}

} // verus!
