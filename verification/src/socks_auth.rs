//! The SOCKS5 greeting of the proxy variant that asks for a username and password.
use crate::socks::{method_table, CMD_CONNECT, METHOD_NONE_ACCEPTABLE, METHOD_NO_AUTH, METHOD_USER_PASS, SOCKS_VERSION};
use vstd::prelude::*;

verus! {

/// Why a connection to the authenticating proxy failed.
#[derive(Debug)]
pub enum EverError {
    SocksVersionMismatch,
    SocksNoAcceptableMethod,
    SocksAuthRequired,
    SocksBadAuth,
    SocksInvalidConnect,
    SocksUnsupportedAddress,
    Io(std::io::Error),
}

impl From<std::io::Error> for EverError {
    fn from(value: std::io::Error) -> (r: Self) {
        EverError::Io(value)
    }
}

impl vstd::std_specs::convert::FromSpecImpl<std::io::Error> for EverError {
    open spec fn obeys_from_spec() -> bool {
        true
    }

    open spec fn from_spec(v: std::io::Error) -> Self {
        EverError::Io(v)
    }
}

/// Version byte of the username/password sub-negotiation.
pub const AUTH_VERSION: u8 = 0x01;

/// Status byte of accepted credentials.
pub const AUTH_SUCCESS: u8 = 0x00;

/// Status byte of refused credentials.
pub const AUTH_FAILURE: u8 = 0x01;

/// How the greeting continues.
#[derive(Debug, Clone, Copy, PartialEq, Eq, Structural)]
pub enum Method {
    /// Without authentication.
    NoAuth,
    /// With a username and password.
    UserPass,
}

/// Chooses the authentication method for the offered `methods` and the reply to send: no
/// authentication when the 255-byte method table holds it, else username and password when
/// offered, else a refusal.
pub fn negotiate(methods: &[u8]) -> (r: ([u8; 2], Result<Method, EverError>))
    requires
        methods@.len() <= 255,
    ensures
        method_table(methods@).contains(METHOD_NO_AUTH) ==> r.0 == [SOCKS_VERSION, METHOD_NO_AUTH]
            && r.1 matches Ok(Method::NoAuth),
        !method_table(methods@).contains(METHOD_NO_AUTH) && method_table(methods@).contains(
            METHOD_USER_PASS,
        ) ==> r.0 == [SOCKS_VERSION, METHOD_USER_PASS] && r.1 matches Ok(Method::UserPass),
        !method_table(methods@).contains(METHOD_NO_AUTH) && !method_table(methods@).contains(
            METHOD_USER_PASS,
        ) ==> r.0 == [SOCKS_VERSION, METHOD_NONE_ACCEPTABLE] && r.1 matches Err(
            EverError::SocksNoAcceptableMethod,
        ),
{
    let (reply, res) = crate::socks::negotiate(methods);
    match reply {
        Some(b) => match res {
            Ok(()) => (b, Ok(Method::NoAuth)),
            Err(_) => (b, Err(EverError::SocksNoAcceptableMethod)),
        },
        None => ([SOCKS_VERSION, METHOD_USER_PASS], Ok(Method::UserPass)),
    }
}

/// Checks the two-byte header of the credentials and returns the length of the username.
pub fn auth_header(header: [u8; 2]) -> (r: Result<usize, EverError>)
    ensures
        header[0] == AUTH_VERSION ==> (r matches Ok(n) && n == header[1]),
        header[0] != AUTH_VERSION ==> r matches Err(EverError::SocksAuthRequired),
{
    if header[0] != AUTH_VERSION {
        return Err(EverError::SocksAuthRequired);
    }
    Ok(header[1] as usize)
}

/// The reply to credentials; every username and password is accepted.
pub fn auth_reply() -> (r: [u8; 2])
    ensures
        r == [AUTH_VERSION, AUTH_SUCCESS],
{
    [AUTH_VERSION, AUTH_SUCCESS]
}

/// Checks the three-byte request header: only CONNECT is served.
pub fn request_header(header: [u8; 3]) -> (r: Result<(), EverError>)
    ensures
        r is Ok <==> header[0] == SOCKS_VERSION && header[1] == CMD_CONNECT && header[2] == 0,
        r matches Err(e) ==> e is SocksInvalidConnect,
{
    if header[0] != SOCKS_VERSION || header[1] != CMD_CONNECT || header[2] != 0 {
        return Err(EverError::SocksInvalidConnect);
    }
    Ok(())
}

} // verus!
