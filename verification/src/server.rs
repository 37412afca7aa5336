//! What the serving loop decides per decoded request, and the response
//! post-processing it applies.  The loop itself — sockets, threads, the
//! worker pool — lives outside the library and acts on these decisions.

use vstd::prelude::*;
use vstd::string::{StrSliceExecFns, StringExecFns, StringSliceAdditionalSpecFns};
use mime_sniffer::MimeTypeSniffer;
use crate::strutil::{self, str_bytes};
use crate::error::HttpError;
use crate::body::Body;
use crate::request::header_lookup;
use crate::response::{Response, ResponseV, is_header_value_text};
use crate::router::{InternalRouter, Threading};
use crate::codec::{DecodingResult, DecodedRequest};

verus! {

/// The MIME type sniffed from content bytes.
pub uninterp spec fn sniffed_mime_of(data: Seq<u8>) -> Option<Seq<u8>>;

/// Relies on `mime_sniffer`'s `sniff_mime_type` for byte containers, which
/// sniffs from the local data alone.
#[verifier::external_body]
fn sniff_mime(data: &Vec<u8>) -> (r: Option<String>)
    ensures
        match r {
            Some(m) => sniffed_mime_of(data@) == Some(str_bytes(m)),
            None => sniffed_mime_of(data@) is None,
        },
{
    data.sniff_mime_type().map(|s| s.to_string())
}

/// Whether a header with the given name is set.
fn has_header(headers: &Vec<(String, String)>, name: &str) -> (r: bool)
    ensures
        r == (header_lookup(
            headers@.map_values(|h: (String, String)| (str_bytes(h.0), str_bytes(h.1))),
            name.spec_bytes(),
        ) is Some),
{
    let ghost hs = headers@.map_values(|h: (String, String)| (str_bytes(h.0), str_bytes(h.1)));
    let mut i: usize = 0;
    proof {
        assert(hs.skip(0) =~= hs);
    }
    while i < headers.len()
        invariant
            i <= headers@.len(),
            hs == headers@.map_values(|h: (String, String)| (str_bytes(h.0), str_bytes(h.1))),
            header_lookup(hs, name.spec_bytes()) == header_lookup(
                hs.skip(i as int),
                name.spec_bytes(),
            ),
        decreases headers@.len() - i,
    {
        proof {
            assert(hs.skip(i as int)[0] == hs[i as int]);
            assert(hs.skip(i as int).drop_first() =~= hs.skip(i as int + 1));
        }
        if strutil::eq_ignore_ascii_case(headers[i].0.as_str().as_bytes(), name.as_bytes()) {
            return true;
        }
        i += 1;
    }
    false
}

/// The response after content-type enhancement: when no content type is set
/// and the body's bytes sniff to a usable type, that type is appended.
pub open spec fn spec_enhance(r: ResponseV) -> ResponseV {
    if header_lookup(r.headers, "content-type".spec_bytes()) is None && r.body is Some {
        match sniffed_mime_of(r.body->Some_0) {
            Some(m) => if is_header_value_text(m) {
                ResponseV { headers: r.headers.push(("content-type".spec_bytes(), m)), ..r }
            } else {
                r
            },
            None => r,
        }
    } else {
        r
    }
}

/// Fills in a missing content type by sniffing the body.
pub fn enhance_content_type(response: Response) -> (r: Response)
    ensures
        r@ == spec_enhance(response@),
{
    let has_type = has_header(&response.headers, "content-type");
    if has_type {
        return response;
    }
    let sniffed = match response.body.inner() {
        Some(v) => sniff_mime(v),
        None => None,
    };
    match sniffed {
        Some(m) => {
            if !crate::response::check_header_value(m.as_str()) {
                return response;
            }
            let Response { status, version, mut headers, body } = response;
            let ghost before = headers@.map_values(
                |h: (String, String)| (str_bytes(h.0), str_bytes(h.1)),
            );
            headers.push((String::from_str("content-type"), m));
            let r = Response { status, version, headers, body };
            proof {
                assert(r@.headers =~= before.push(
                    ("content-type".spec_bytes(), str_bytes(m)),
                ));
                assert(r@ =~= spec_enhance(response@));
            }
            r
        },
        None => response,
    }
}

/// The response a handler's outcome turns into: a successful response with
/// its content type filled in, or the error converted directly.
pub fn handler_response(res: Result<Response, HttpError>) -> (r: Response)
    ensures
        match res {
            Ok(resp) => r@ == spec_enhance(resp@),
            Err(e) => r@ == (ResponseV {
                status: e.status.code,
                version: crate::request::Version::Http11,
                headers: e.headers@.map_values(
                    |h: (String, String)| (str_bytes(h.0), str_bytes(h.1)),
                ),
                body: Some(str_bytes(e.msg)),
            }),
        },
{
    match res {
        Ok(resp) => enhance_content_type(resp),
        Err(e) => Response::from_error(e),
    }
}

/// What the serving loop does with one decoding outcome.
pub enum Dispatch {
    /// Send this response without running any handler.
    Respond(Response),
    /// Run the matched route's handler, inline or pooled.
    Run(DecodedRequest, Threading),
}

/// Turns a decoding outcome into a dispatch: oversize input and unroutable
/// requests answer immediately; a decoded request runs its route's handler
/// under the route's thread model.
pub fn dispatch_decision(result: DecodingResult, router: &InternalRouter) -> (r: Dispatch)
    ensures
        match result@ {
            crate::codec::DrV::BodyTooLarge => r matches Dispatch::Respond(resp) && resp@.status
                == 400 && resp@.body == Some("Request too large".spec_bytes()),
            crate::codec::DrV::HeaderTooLarge => r matches Dispatch::Respond(resp) && resp@.status
                == 400 && resp@.body == Some("Header too large".spec_bytes()),
            crate::codec::DrV::RouteNotFound => r matches Dispatch::Respond(resp) && resp@.status
                == 404 && resp@.body == Some("Route not found".spec_bytes()),
            crate::codec::DrV::Complete(d) => {
                if d.route < router@.len() {
                    r matches Dispatch::Run(d2, t) && d2@ == d && t == router@[d.route].threading
                } else {
                    r matches Dispatch::Respond(resp) && resp@.status == 500
                }
            },
        },
{
    match result {
        DecodingResult::BodyTooLarge => Dispatch::Respond(
            Response::from_error(HttpError::bad_request("Request too large")),
        ),
        DecodingResult::HeaderTooLarge => Dispatch::Respond(
            Response::from_error(HttpError::bad_request("Header too large")),
        ),
        DecodingResult::RouteNotFound => Dispatch::Respond(
            Response::from_error(HttpError::not_found("Route not found")),
        ),
        DecodingResult::Complete(d) => {
            if d.route < router.route_count() {
                let threading = *router.get_route(d.route).get_threading();
                Dispatch::Run(d, threading)
            } else {
                Dispatch::Respond(
                    Response::from_error(
                        HttpError::internal_server_error("route index out of range"),
                    ),
                )
            }
        },
    }
}

} // verus!
