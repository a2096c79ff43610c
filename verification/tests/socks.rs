use evergreen::socks::{greeting, negotiate, port_from_be, request_header, success_reply, EverError};
use evergreen::socks_auth;

#[test]
fn socks_greeting_header() {
    assert_eq!(greeting([5, 3]).unwrap(), 3);
    assert!(matches!(greeting([4, 1]), Err(EverError::SocksVersionMismatch)));
}

#[test]
fn socks_negotiation() {
    let (reply, res) = negotiate(&[2]);
    assert_eq!(reply, Some([5, 0]));
    assert!(res.is_ok());
    let all_but_zero: Vec<u8> = (1..=255u8).collect();
    let (reply, res) = negotiate(&all_but_zero);
    assert_eq!(reply, None);
    assert!(matches!(res, Err(EverError::SocksAuthRequired)));
    let no_user_pass: Vec<u8> = (1..=255u8).map(|b| if b == 2 { 1 } else { b }).collect();
    let (reply, res) = negotiate(&no_user_pass);
    assert_eq!(reply, Some([5, 0xFF]));
    assert!(matches!(res, Err(EverError::SocksNoAcceptableMethod)));
    let mut with_zero = no_user_pass.clone();
    with_zero[100] = 0;
    assert_eq!(negotiate(&with_zero).0, Some([5, 0]));
}

#[test]
fn socks_request_and_reply() {
    assert!(request_header([5, 1, 0]).is_ok());
    assert!(matches!(request_header([5, 3, 0]), Err(EverError::SocksInvalidConnect)));
    assert!(matches!(request_header([5, 2, 0]), Err(EverError::SocksInvalidConnect)));
    assert!(matches!(request_header([4, 1, 0]), Err(EverError::SocksInvalidConnect)));
    assert!(matches!(request_header([5, 1, 1]), Err(EverError::SocksInvalidConnect)));
    assert_eq!(port_from_be([0x1f, 0x90]), 8080);
    assert_eq!(success_reply(0), [5, 0, 0, 1, 0, 0, 0, 0, 0, 0]);
    assert_eq!(success_reply(0x1234), [5, 0, 0, 1, 0, 0, 0, 0, 0x12, 0x34]);
    let e: EverError = std::io::Error::other("x").into();
    assert!(matches!(e, EverError::Io(_)));
}

#[test]
fn socks_auth_variant() {
    let (reply, res) = socks_auth::negotiate(&[0, 2]);
    assert_eq!(reply, [5, 0]);
    assert!(matches!(res, Ok(socks_auth::Method::NoAuth)));
    let offer: Vec<u8> = (1..=255u8).collect();
    let (reply, res) = socks_auth::negotiate(&offer);
    assert_eq!(reply, [5, 2]);
    assert!(matches!(res, Ok(socks_auth::Method::UserPass)));
    let offer: Vec<u8> = vec![1; 255];
    let (reply, res) = socks_auth::negotiate(&offer);
    assert_eq!(reply, [5, 0xFF]);
    assert!(matches!(res, Err(socks_auth::EverError::SocksNoAcceptableMethod)));
    assert_eq!(socks_auth::auth_header([1, 4]).unwrap(), 4);
    assert!(matches!(socks_auth::auth_header([2, 4]), Err(socks_auth::EverError::SocksAuthRequired)));
    assert_eq!(socks_auth::auth_reply(), [1, 0]);
    assert!(socks_auth::request_header([5, 1, 0]).is_ok());
    assert!(matches!(socks_auth::request_header([5, 3, 0]), Err(socks_auth::EverError::SocksInvalidConnect)));
}
