//! The message body type, a wrapper around `Option<Vec<u8>>`.

use vstd::prelude::*;
use vstd::utf8::{valid_utf8, decode_utf8};
use crate::error::HttpError;
use crate::strutil;
use vstd::string::{StrSliceExecFns, StringSliceAdditionalSpecFns};

verus! {

/// Body of a request or response: either absent or a byte vector.
#[derive(Debug)]
pub struct Body(pub Option<Vec<u8>>);

impl View for Body {
    type V = Option<Seq<u8>>;

    open spec fn view(&self) -> Option<Seq<u8>> {
        match self.0 {
            Some(v) => Some(v@),
            None => None,
        }
    }
}

impl Body {
    /// An absent body.
    pub fn empty() -> (r: Body)
        ensures
            r@ is None,
    {
        Body(None)
    }

    /// Reference to the inner `Option<Vec<u8>>`.
    pub fn inner(&self) -> (r: &Option<Vec<u8>>)
        ensures
            *r == self.0,
    {
        &self.0
    }

    /// Mutable reference to the inner `Option<Vec<u8>>`.
    pub fn inner_mut(&mut self) -> (r: &mut Option<Vec<u8>>)
        ensures
            *r == old(self).0,
            final(self).0 == *final(r),
    {
        &mut self.0
    }

    /// Moves the inner `Option<Vec<u8>>` out.
    pub fn into_inner(self) -> (r: Option<Vec<u8>>)
        ensures
            r == self.0,
    {
        self.0
    }

    /// The body as a string: fails with a client error when the body is
    /// absent or not valid UTF-8.
    pub fn to_string(&self) -> (r: Result<String, HttpError>)
        ensures
            self@ is None ==> r is Err && r->Err_0.status.code == 400,
            self@ matches Some(bytes) ==> {
                &&& valid_utf8(bytes) <==> r is Ok
                &&& r matches Ok(s) ==> s@ == decode_utf8(bytes)
                &&& r matches Err(e) ==> e.status.code == 400
            },
    {
        match &self.0 {
            None => Err(HttpError::bad_request("Trying to read non existing string from body")),
            Some(v) => {
                match strutil::utf8_to_string(strutil::clone_bytes(v)) {
                    Some(s) => Ok(s),
                    None => Err(HttpError::bad_request("invalid utf-8 sequence")),
                }
            },
        }
    }

    /// The body's length in bytes; zero when absent.
    pub fn len(&self) -> (r: usize)
        ensures
            r == match self@ {
                Some(bytes) => bytes.len(),
                None => 0,
            },
    {
        match &self.0 {
            Some(v) => v.len(),
            None => 0,
        }
    }
}

impl From<Vec<u8>> for Body {
    fn from(o: Vec<u8>) -> (r: Body) {
        Body(Some(o))
    }
}

impl vstd::std_specs::convert::FromSpecImpl<Vec<u8>> for Body {
    open spec fn obeys_from_spec() -> bool {
        true
    }

    open spec fn from_spec(o: Vec<u8>) -> Body {
        Body(Some(o))
    }
}

impl From<Option<Vec<u8>>> for Body {
    fn from(o: Option<Vec<u8>>) -> (r: Body) {
        Body(o)
    }
}

impl vstd::std_specs::convert::FromSpecImpl<Option<Vec<u8>>> for Body {
    open spec fn obeys_from_spec() -> bool {
        true
    }

    open spec fn from_spec(o: Option<Vec<u8>>) -> Body {
        Body(o)
    }
}

impl Body {
    /// A body holding the UTF-8 bytes of the given string.
    pub fn from_str_body(s: &str) -> (r: Body)
        ensures
            r@ == Some(s.spec_bytes()),
    {
        Body(Some(s.as_bytes_vec()))
    }
}

} // verus!
