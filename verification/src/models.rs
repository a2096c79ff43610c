//! The error answers of the server's API.
use vstd::prelude::*;

verus! {

/// Every error code of the API.
#[derive(Debug, Clone, Copy, PartialEq, Eq, Structural)]
pub enum ErrorCode {
    Unknown,
    BadRequest,
    Forbidden,
    BadAuth,
    NotFound,
    ServerError,
    DatabaseError,
}

/// The HTTP status that goes with an error code.
pub open spec fn spec_status(code: ErrorCode) -> u16 {
    match code {
        ErrorCode::BadRequest => 400,
        ErrorCode::Forbidden => 403,
        ErrorCode::BadAuth => 403,
        ErrorCode::NotFound => 404,
        ErrorCode::Unknown => 500,
        ErrorCode::ServerError => 500,
        ErrorCode::DatabaseError => 500,
    }
}

impl Default for ErrorCode {
    fn default() -> (r: ErrorCode)
        ensures
            r == ErrorCode::Unknown,
    {
        ErrorCode::Unknown
    }
}

impl ErrorCode {
    /// The HTTP status that goes with the code.
    pub fn status(&self) -> (r: u16)
        ensures
            r == spec_status(*self),
    {
        match self {
            ErrorCode::BadRequest => 400,
            ErrorCode::Forbidden => 403,
            ErrorCode::BadAuth => 403,
            ErrorCode::NotFound => 404,
            ErrorCode::Unknown => 500,
            ErrorCode::ServerError | ErrorCode::DatabaseError => 500,
        }
    }
}

/// An error answer: status, code and an optional text for debugging.
#[derive(Debug, Clone)]
pub struct AppErr {
    pub status: u16,
    pub code: ErrorCode,
    pub debug: Option<String>,
}

impl From<ErrorCode> for AppErr {
    fn from(value: ErrorCode) -> (r: Self) {
        AppErr { status: value.status(), debug: None, code: value }
    }
}

impl vstd::std_specs::convert::FromSpecImpl<ErrorCode> for AppErr {
    open spec fn obeys_from_spec() -> bool {
        true
    }

    open spec fn from_spec(v: ErrorCode) -> AppErr {
        AppErr { status: spec_status(v), debug: None, code: v }
    }
}

impl AppErr {
    /// The answer to an internal failure.
    pub fn server_error() -> (r: AppErr)
        ensures
            r.status == 500,
            r.code == ErrorCode::ServerError,
            r.debug is None,
    {
        AppErr { status: 500, code: ErrorCode::ServerError, debug: None }
    }

    /// The HTTP status the answer is sent with: its status when that is a status code (100 to
    /// 999), else 500.
    pub fn status_code(&self) -> (r: u16)
        ensures
            r == if 100 <= self.status <= 999 {
                self.status
            } else {
                500
            },
    {
        if crate::http1::status_valid(self.status) {
            self.status
        } else {
            500
        }
    }

    /// The same answer with `debug` as its text for debugging.
    pub fn debug(self, debug: &str) -> (r: AppErr)
        ensures
            r.status == self.status,
            r.code == self.code,
            r.debug matches Some(d) && d@ == debug@,
    {
        let mut me = self;
        me.debug = Some(debug.to_owned());
        me
    }
}

} // verus!
