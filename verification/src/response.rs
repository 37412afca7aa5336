//! The response type and its builder.

use vstd::prelude::*;
use vstd::pervasive::VecAdditionalExecFns;
use vstd::string::{StrSliceExecFns, StringExecFns, StringSliceAdditionalSpecFns};
use crate::strutil::{self, str_bytes, lower_bytes};
use crate::error::{HttpError, StatusCode};
use crate::body::Body;
use crate::request::Version;

verus! {

/// A response: status, version, headers in insertion order, and a body.
#[derive(Debug)]
pub struct Response {
    pub status: StatusCode,
    pub version: Version,
    pub headers: Vec<(String, String)>,
    pub body: Body,
}

/// The mathematical value of a response.
#[verifier::ext_equal]
pub struct ResponseV {
    pub status: u16,
    pub version: Version,
    pub headers: Seq<(Seq<u8>, Seq<u8>)>,
    pub body: Option<Seq<u8>>,
}

impl View for Response {
    type V = ResponseV;

    open spec fn view(&self) -> ResponseV {
        ResponseV {
            status: self.status.code,
            version: self.version,
            headers: self.headers@.map_values(|h: (String, String)| (str_bytes(h.0), str_bytes(h.1))),
            body: self.body@,
        }
    }
}

/// Text that may stand in a header value: horizontal tab or a printable
/// ASCII byte.
pub open spec fn is_header_value_text(s: Seq<u8>) -> bool {
    forall|i: int| 0 <= i < s.len() ==> (s[i] == 9 || (32 <= #[trigger] s[i] <= 126))
}

/// Checks that text may stand in a header value.
pub fn check_header_value(v: &str) -> (r: bool)
    ensures
        r == is_header_value_text(v.spec_bytes()),
{
    let bytes = v.as_bytes();
    let mut i: usize = 0;
    while i < bytes.len()
        invariant
            i <= bytes@.len(),
            bytes@ == v.spec_bytes(),
            forall|j: int| 0 <= j < i ==> (bytes@[j] == 9 || (32 <= #[trigger] bytes@[j] <= 126)),
        decreases bytes@.len() - i,
    {
        let b = bytes[i];
        if !(b == 9 || (32 <= b && b <= 126)) {
            return false;
        }
        i += 1;
    }
    true
}

/// The headers after setting `name` to `value`: the first header with that
/// name (ignoring ASCII case) is replaced in place, or the pair is appended.
pub open spec fn replace_header(
    hs: Seq<(Seq<u8>, Seq<u8>)>,
    name: Seq<u8>,
    value: Seq<u8>,
) -> Seq<(Seq<u8>, Seq<u8>)>
    decreases hs.len(),
{
    if hs.len() == 0 {
        seq![(name, value)]
    } else if lower_bytes(hs[0].0) == lower_bytes(name) {
        seq![(name, value)] + hs.drop_first()
    } else {
        seq![hs[0]] + replace_header(hs.drop_first(), name, value)
    }
}

/// Where the first matching header stands, `replace_header` updates it in
/// place; with no match it appends.
pub proof fn lemma_replace_header_at(
    hs: Seq<(Seq<u8>, Seq<u8>)>,
    name: Seq<u8>,
    value: Seq<u8>,
    i: int,
)
    requires
        0 <= i <= hs.len(),
        forall|j: int| 0 <= j < i ==> lower_bytes(#[trigger] hs[j].0) != lower_bytes(name),
        i < hs.len() ==> lower_bytes(hs[i].0) == lower_bytes(name),
    ensures
        replace_header(hs, name, value) == if i < hs.len() {
            hs.update(i, (name, value))
        } else {
            hs.push((name, value))
        },
    decreases i,
{
    if hs.len() == 0 {
        assert(replace_header(hs, name, value) =~= hs.push((name, value)));
    } else if i == 0 {
        assert(replace_header(hs, name, value) =~= hs.update(0, (name, value)));
    } else {
        assert forall|j: int| 0 <= j < i - 1 implies lower_bytes(
            #[trigger] hs.drop_first()[j].0,
        ) != lower_bytes(name) by {
            assert(hs.drop_first()[j] == hs[j + 1]);
        }
        lemma_replace_header_at(hs.drop_first(), name, value, i - 1);
        if i < hs.len() {
            assert(replace_header(hs, name, value) =~= hs.update(i, (name, value)));
        } else {
            assert(replace_header(hs, name, value) =~= hs.push((name, value)));
        }
    }
}

impl Response {
    pub fn status(&self) -> (r: StatusCode)
        ensures
            r.code == self@.status,
    {
        self.status
    }

    pub fn headers(&self) -> (r: &Vec<(String, String)>)
        ensures
            r@.map_values(|h: (String, String)| (str_bytes(h.0), str_bytes(h.1))) == self@.headers,
    {
        &self.headers
    }

    pub fn body(&self) -> (r: &Body)
        ensures
            r@ == self@.body,
    {
        &self.body
    }

    /// The body's bytes, used for testing and response inspection.
    pub fn into_vec(self) -> (r: Option<Vec<u8>>)
        ensures
            match r {
                Some(v) => self@.body == Some(v@),
                None => self@.body is None,
            },
    {
        self.body.into_inner()
    }

    /// The first header with the given name, ignoring ASCII case.
    pub fn header(&self, name: &str) -> (r: Option<&str>)
        ensures
            match crate::request::header_lookup(self@.headers, name.spec_bytes()) {
                Some(v) => r is Some && r.unwrap().spec_bytes() == v,
                None => r is None,
            },
    {
        let ghost hs = self@.headers;
        let mut i: usize = 0;
        proof {
            assert(hs.skip(0) =~= hs);
        }
        while i < self.headers.len()
            invariant
                i <= self.headers@.len(),
                hs == self@.headers,
                crate::request::header_lookup(hs, name.spec_bytes())
                    == crate::request::header_lookup(hs.skip(i as int), name.spec_bytes()),
            decreases self.headers@.len() - i,
        {
            proof {
                assert(hs.skip(i as int)[0] == hs[i as int]);
                assert(hs.skip(i as int).drop_first() =~= hs.skip(i as int + 1));
            }
            if strutil::eq_ignore_ascii_case(self.headers[i].0.as_str().as_bytes(), name.as_bytes()) {
                return Some(self.headers[i].1.as_str());
            }
            i += 1;
        }
        None
    }

    /// Sets a header, replacing an existing one of the same name; fails when
    /// the value holds a byte that may not stand in a header.
    pub fn set_header(&mut self, name: &str, value: &str) -> (r: Result<(), HttpError>)
        ensures
            match r {
                Ok(_) => {
                    &&& is_header_value_text(value.spec_bytes())
                    &&& final(self)@ == (ResponseV {
                        headers: replace_header(
                            old(self)@.headers,
                            name.spec_bytes(),
                            value.spec_bytes(),
                        ),
                        ..old(self)@
                    })
                },
                Err(e) => {
                    &&& !is_header_value_text(value.spec_bytes())
                    &&& *final(self) == *old(self)
                    &&& e.status.code == 500
                },
            },
    {
        if !check_header_value(value) {
            return Err(HttpError::internal_server_error("invalid header value"));
        }
        let ghost hs = self@.headers;
        let n = self.headers.len();
        let mut i: usize = 0;
        while i < n
            invariant
                n == self.headers@.len(),
                i <= n,
                hs == self@.headers,
                *self == *old(self),
                is_header_value_text(value.spec_bytes()),
                forall|j: int| 0 <= j < i ==> lower_bytes(#[trigger] hs[j].0) != lower_bytes(
                    name.spec_bytes(),
                ),
            decreases n - i,
        {
            if strutil::eq_ignore_ascii_case(self.headers[i].0.as_str().as_bytes(), name.as_bytes()) {
                proof {
                    assert(hs[i as int].0 == str_bytes(self.headers@[i as int].0));
                    lemma_replace_header_at(hs, name.spec_bytes(), value.spec_bytes(), i as int);
                }
                self.headers.set(i, (String::from_str(name), String::from_str(value)));
                proof {
                    assert(self@.headers =~= replace_header(
                        hs,
                        name.spec_bytes(),
                        value.spec_bytes(),
                    ));
                    assert(self@ =~= (ResponseV {
                        headers: replace_header(hs, name.spec_bytes(), value.spec_bytes()),
                        ..old(self)@
                    }));
                }
                return Ok(());
            }
            proof {
                assert(hs[i as int].0 == str_bytes(self.headers@[i as int].0));
            }
            i += 1;
        }
        proof {
            lemma_replace_header_at(hs, name.spec_bytes(), value.spec_bytes(), n as int);
        }
        self.headers.push((String::from_str(name), String::from_str(value)));
        proof {
            assert(self@.headers =~= replace_header(hs, name.spec_bytes(), value.spec_bytes()));
            assert(self@ =~= (ResponseV {
                headers: replace_header(hs, name.spec_bytes(), value.spec_bytes()),
                ..old(self)@
            }));
        }
        Ok(())
    }

    /// A new builder.
    pub fn builder() -> (r: ResponseBuilder)
        ensures
            r@.status == 200,
            r@.version == Version::Http11,
            r@.headers.len() == 0,
            r@.body is None,
    {
        let r = ResponseBuilder {
            status: StatusCode::ok(),
            version: Version::Http11,
            header: Vec::new(),
            body: Body(None),
        };
        proof {
            assert(r@.headers =~= Seq::<(Seq<u8>, Seq<u8>)>::empty());
        }
        r
    }

    /// A 200 response carrying the given text.
    pub fn from_text(text: &str) -> (r: Response)
        ensures
            r@ == (ResponseV {
                status: 200,
                version: Version::Http11,
                headers: Seq::empty(),
                body: Some(text.spec_bytes()),
            }),
    {
        let r = Response {
            status: StatusCode::ok(),
            version: Version::Http11,
            headers: Vec::new(),
            body: Body::from_str_body(text),
        };
        proof {
            assert(r@ =~= (ResponseV {
                status: 200,
                version: Version::Http11,
                headers: Seq::empty(),
                body: Some(text.spec_bytes()),
            }));
        }
        r
    }

    /// A 200 response carrying the given bytes.
    pub fn from_bytes(bytes: Vec<u8>) -> (r: Response)
        ensures
            r@ == (ResponseV {
                status: 200,
                version: Version::Http11,
                headers: Seq::empty(),
                body: Some(bytes@),
            }),
    {
        let r = Response {
            status: StatusCode::ok(),
            version: Version::Http11,
            headers: Vec::new(),
            body: Body(Some(bytes)),
        };
        proof {
            assert(r@ =~= (ResponseV {
                status: 200,
                version: Version::Http11,
                headers: Seq::empty(),
                body: Some(r.body.0.unwrap()@),
            }));
        }
        r
    }

    /// An empty-bodied response with the given status.
    pub fn from_status(status: StatusCode) -> (r: Response)
        ensures
            r@ == (ResponseV {
                status: status.code,
                version: Version::Http11,
                headers: Seq::empty(),
                body: None,
            }),
    {
        let r = Response {
            status,
            version: Version::Http11,
            headers: Vec::new(),
            body: Body(None),
        };
        proof {
            assert(r@ =~= (ResponseV {
                status: status.code,
                version: Version::Http11,
                headers: Seq::empty(),
                body: None,
            }));
        }
        r
    }

    /// The response an error turns into: its status, its headers, and the
    /// message as body.
    pub fn from_error(err: HttpError) -> (r: Response)
        ensures
            r@ == (ResponseV {
                status: err.status.code,
                version: Version::Http11,
                headers: err.headers@.map_values(
                    |h: (String, String)| (str_bytes(h.0), str_bytes(h.1)),
                ),
                body: Some(str_bytes(err.msg)),
            }),
    {
        let HttpError { status, msg, headers } = err;
        let r = Response {
            status,
            version: Version::Http11,
            headers,
            body: Body::from_str_body(msg.as_str()),
        };
        proof {
            assert(r@ =~= (ResponseV {
                status: status.code,
                version: Version::Http11,
                headers: r.headers@.map_values(
                    |h: (String, String)| (str_bytes(h.0), str_bytes(h.1)),
                ),
                body: Some(str_bytes(msg)),
            }));
        }
        r
    }

    /// A moved-permanently response pointing at the given URL.
    pub fn moved_permanent(url: &str) -> (r: Result<Response, HttpError>)
        ensures
            match r {
                Ok(resp) => {
                    &&& is_header_value_text(url.spec_bytes())
                    &&& resp@ == (ResponseV {
                        status: 301,
                        version: Version::Http11,
                        headers: seq![("location".spec_bytes(), url.spec_bytes())],
                        body: None,
                    })
                },
                Err(_) => !is_header_value_text(url.spec_bytes()),
            },
    {
        let mut resp = Response {
            status: StatusCode::moved_permanently(),
            version: Version::Http11,
            headers: Vec::new(),
            body: Body(None),
        };
        proof {
            assert(resp@.headers =~= Seq::<(Seq<u8>, Seq<u8>)>::empty());
        }
        match resp.set_header("location", url) {
            Ok(_) => {
                proof {
                    assert(resp@.headers =~= seq![("location".spec_bytes(), url.spec_bytes())]);
                    assert(resp@ =~= (ResponseV {
                        status: 301,
                        version: Version::Http11,
                        headers: seq![("location".spec_bytes(), url.spec_bytes())],
                        body: None,
                    }));
                }
                Ok(resp)
            },
            Err(e) => Err(e),
        }
    }
}

/// Accumulates the parts of a response.
pub struct ResponseBuilder {
    pub status: StatusCode,
    pub version: Version,
    pub header: Vec<(String, String)>,
    pub body: Body,
}

impl View for ResponseBuilder {
    type V = ResponseV;

    open spec fn view(&self) -> ResponseV {
        ResponseV {
            status: self.status.code,
            version: self.version,
            headers: self.header@.map_values(|h: (String, String)| (str_bytes(h.0), str_bytes(h.1))),
            body: self.body@,
        }
    }
}

impl ResponseBuilder {
    /// Sets the status.
    pub fn status(self, status: StatusCode) -> (r: ResponseBuilder)
        ensures
            r@ == (ResponseV { status: status.code, ..self@ }),
    {
        let r = ResponseBuilder { status, ..self };
        proof {
            assert(r@ =~= (ResponseV { status: status.code, ..self@ }));
        }
        r
    }

    /// Replaces all headers.
    pub fn header_map(self, map: Vec<(String, String)>) -> (r: ResponseBuilder)
        ensures
            r@ == (ResponseV {
                headers: map@.map_values(|h: (String, String)| (str_bytes(h.0), str_bytes(h.1))),
                ..self@
            }),
    {
        let r = ResponseBuilder { header: map, ..self };
        proof {
            assert(r@ =~= (ResponseV {
                headers: r.header@.map_values(
                    |h: (String, String)| (str_bytes(h.0), str_bytes(h.1)),
                ),
                ..self@
            }));
        }
        r
    }

    /// Appends a header after validating the value.
    pub fn header_str_value(self, name: &str, value: &str) -> (r: Result<
        ResponseBuilder,
        HttpError,
    >)
        ensures
            match r {
                Ok(b) => {
                    &&& is_header_value_text(value.spec_bytes())
                    &&& b@ == (ResponseV {
                        headers: self@.headers.push((name.spec_bytes(), value.spec_bytes())),
                        ..self@
                    })
                },
                Err(_) => !is_header_value_text(value.spec_bytes()),
            },
    {
        if !check_header_value(value) {
            return Err(HttpError::internal_server_error("invalid header value"));
        }
        let ghost before = self@.headers;
        let mut header = self.header;
        header.push((String::from_str(name), String::from_str(value)));
        let r = ResponseBuilder { header, ..self };
        proof {
            assert(r@.headers =~= before.push((name.spec_bytes(), value.spec_bytes())));
            assert(r@ =~= (ResponseV {
                headers: before.push((name.spec_bytes(), value.spec_bytes())),
                ..self@
            }));
        }
        Ok(r)
    }

    /// Sets the body from bytes.
    pub fn body_vec(self, body: Vec<u8>) -> (r: ResponseBuilder)
        ensures
            r@ == (ResponseV { body: Some(body@), ..self@ }),
    {
        let r = ResponseBuilder { body: Body(Some(body)), ..self };
        proof {
            assert(r@ =~= (ResponseV { body: r.body@, ..self@ }));
        }
        r
    }

    /// Sets the body.
    pub fn body(self, body: Body) -> (r: ResponseBuilder)
        ensures
            r@ == (ResponseV { body: body@, ..self@ }),
    {
        let ghost bv = body@;
        let r = ResponseBuilder { body, ..self };
        proof {
            assert(r@ =~= (ResponseV { body: bv, ..self@ }));
        }
        r
    }

    /// Finishes the response.
    pub fn build(self) -> (r: Result<Response, HttpError>)
        ensures
            r matches Ok(resp) && resp@ == self@,
    {
        let ResponseBuilder { status, version, header, body } = self;
        let r = Response { status, version, headers: header, body };
        proof {
            assert(r@ =~= self@);
        }
        Ok(r)
    }
}

impl Default for ResponseBuilder {
    /// A builder for a 200 response with no headers and no body.
    fn default() -> (r: ResponseBuilder)
        ensures
            r@.status == 200,
            r@.version == Version::Http11,
            r@.headers.len() == 0,
            r@.body is None,
    {
        Response::builder()
    }
}

} // verus!
