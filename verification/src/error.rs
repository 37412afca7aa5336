//! Status codes and the library's error type.

use vstd::prelude::*;
use vstd::string::StringExecFns;

verus! {

/// An HTTP status code.
#[derive(Clone, Copy, Debug, PartialEq, Eq, Structural)]
pub struct StatusCode {
    pub code: u16,
}

impl StatusCode {
    pub fn as_u16(&self) -> (r: u16)
        ensures
            r == self.code,
    {
        self.code
    }

    pub fn from_u16(code: u16) -> (r: StatusCode)
        ensures
            r.code == code,
    {
        StatusCode { code }
    }

    pub fn ok() -> (r: StatusCode)
        ensures
            r.code == 200,
    {
        StatusCode { code: 200 }
    }

    pub fn moved_permanently() -> (r: StatusCode)
        ensures
            r.code == 301,
    {
        StatusCode { code: 301 }
    }

    pub fn not_modified() -> (r: StatusCode)
        ensures
            r.code == 304,
    {
        StatusCode { code: 304 }
    }

    pub fn bad_request() -> (r: StatusCode)
        ensures
            r.code == 400,
    {
        StatusCode { code: 400 }
    }

    pub fn unauthorized() -> (r: StatusCode)
        ensures
            r.code == 401,
    {
        StatusCode { code: 401 }
    }

    pub fn not_found() -> (r: StatusCode)
        ensures
            r.code == 404,
    {
        StatusCode { code: 404 }
    }

    pub fn internal_server_error() -> (r: StatusCode)
        ensures
            r.code == 500,
    {
        StatusCode { code: 500 }
    }

    /// The reason phrase that the encoder writes after the numeric code.
    pub open spec fn spec_reason(code: u16) -> Seq<char> {
        if code == 200 {
            "OK"@
        } else if code == 301 {
            "Moved Permanently"@
        } else if code == 304 {
            "Not Modified"@
        } else if code == 400 {
            "Bad Request"@
        } else if code == 401 {
            "Unauthorized"@
        } else if code == 404 {
            "Not Found"@
        } else if code == 500 {
            "Internal Server Error"@
        } else {
            "<unknown status code>"@
        }
    }

    pub fn canonical_reason(&self) -> (r: &'static str)
        ensures
            r@ == StatusCode::spec_reason(self.code),
    {
        if self.code == 200 {
            "OK"
        } else if self.code == 301 {
            "Moved Permanently"
        } else if self.code == 304 {
            "Not Modified"
        } else if self.code == 400 {
            "Bad Request"
        } else if self.code == 401 {
            "Unauthorized"
        } else if self.code == 404 {
            "Not Found"
        } else if self.code == 500 {
            "Internal Server Error"
        } else {
            "<unknown status code>"
        }
    }
}

/// The library's error type: a status, a message, and extra headers that a
/// response built from the error carries.
#[derive(Debug)]
pub struct HttpError {
    pub status: StatusCode,
    pub msg: String,
    pub headers: Vec<(String, String)>,
}

impl HttpError {
    /// A 404 error naming the missing resource.
    pub fn not_found(resource: &str) -> (r: HttpError)
        ensures
            r.status.code == 404,
            r.msg@ == resource@,
            r.headers@.len() == 0,
    {
        HttpError {
            status: StatusCode::not_found(),
            msg: String::from_str(resource),
            headers: Vec::new(),
        }
    }

    /// A 400 error naming the offending input.
    pub fn bad_request(resource: &str) -> (r: HttpError)
        ensures
            r.status.code == 400,
            r.msg@ == resource@,
            r.headers@.len() == 0,
    {
        HttpError {
            status: StatusCode::bad_request(),
            msg: String::from_str(resource),
            headers: Vec::new(),
        }
    }

    /// A 401 error.
    pub fn unauthorized(resource: &str) -> (r: HttpError)
        ensures
            r.status.code == 401,
            r.msg@ == resource@,
            r.headers@.len() == 0,
    {
        HttpError {
            status: StatusCode::unauthorized(),
            msg: String::from_str(resource),
            headers: Vec::new(),
        }
    }

    /// A 500 error.
    pub fn internal_server_error(resource: &str) -> (r: HttpError)
        ensures
            r.status.code == 500,
            r.msg@ == resource@,
            r.headers@.len() == 0,
    {
        HttpError {
            status: StatusCode::internal_server_error(),
            msg: String::from_str(resource),
            headers: Vec::new(),
        }
    }

    /// The error's message, for display by the surrounding program.
    pub fn message(&self) -> (r: &String)
        ensures
            r@ == self.msg@,
    {
        &self.msg
    }
}

} // verus!
