//! The decoded request type and its query-string handling.

use vstd::prelude::*;
use vstd::string::{StrSliceExecFns, StringSliceAdditionalSpecFns};
use vstd::utf8::valid_utf8;
use crate::strutil::{self, str_bytes, spec_split, find_sep, seqs_of};
use crate::params::{Params, lookup};
use crate::router::Method;
use crate::body::Body;

verus! {

/// The HTTP protocol version of a message.
#[derive(Clone, Copy, Debug, PartialEq, Eq, Structural)]
pub enum Version {
    Http10,
    Http11,
}

// ---------------------------------------------------------------------------
// Query strings
// ---------------------------------------------------------------------------

pub open spec fn is_hex_digit(b: u8) -> bool {
    (48 <= b <= 57) || (65 <= b <= 70) || (97 <= b <= 102)
}

pub open spec fn hex_val(b: u8) -> int {
    if 48 <= b <= 57 {
        b - 48
    } else if 65 <= b <= 70 {
        b - 55
    } else {
        b - 87
    }
}

/// Percent-decoding of form-encoded text: `%XX` becomes the byte `XX`, `+`
/// becomes a space, everything else stays, and a malformed escape stays
/// literally.
pub open spec fn pct_decode(s: Seq<u8>) -> Seq<u8>
    decreases s.len(),
{
    if s.len() == 0 {
        Seq::empty()
    } else if s[0] == 37 && s.len() >= 3 && is_hex_digit(s[1]) && is_hex_digit(s[2]) {
        seq![(hex_val(s[1]) * 16 + hex_val(s[2])) as u8] + pct_decode(s.skip(3))
    } else if s[0] == 43 {
        seq![32u8] + pct_decode(s.skip(1))
    } else {
        seq![s[0]] + pct_decode(s.skip(1))
    }
}

/// Decodes form-encoded bytes.
pub fn pct_decode_bytes(s: &[u8]) -> (r: Vec<u8>)
    ensures
        r@ == pct_decode(s@),
    decreases s@.len(),
{
    let mut out: Vec<u8> = Vec::new();
    let mut i: usize = 0;
    proof {
        assert(s@.skip(0) =~= s@);
        assert(out@ + pct_decode(s@) =~= pct_decode(s@));
    }
    while i < s.len()
        invariant
            i <= s@.len(),
            pct_decode(s@) == out@ + pct_decode(s@.skip(i as int)),
        decreases s@.len() - i,
    {
        let ghost pre = out@;
        let b = s[i];
        proof {
            assert(s@.skip(i as int)[0] == s@[i as int]);
            assert(s@.skip(i as int).len() == s@.len() - i);
        }
        if b == 37 && s.len() - i > 2 && hex_digit_val(s[i + 1]).is_some() && hex_digit_val(
            s[i + 2],
        ).is_some() {
            let hi = hex_digit_val(s[i + 1]).unwrap();
            let lo = hex_digit_val(s[i + 2]).unwrap();
            out.push(hi * 16 + lo);
            proof {
                assert(s@.skip(i as int)[1] == s@[i as int + 1]);
                assert(s@.skip(i as int)[2] == s@[i as int + 2]);
                assert(s@.skip(i as int).skip(3) =~= s@.skip(i as int + 3));
                assert(out@ + pct_decode(s@.skip(i as int + 3)) =~= pre + (seq![
                    (hex_val(s@[i as int + 1]) * 16 + hex_val(s@[i as int + 2])) as u8,
                ] + pct_decode(s@.skip(i as int + 3))));
            }
            i += 3;
        } else if b == 43 {
            out.push(32);
            proof {
                assert(s@.skip(i as int).skip(1) =~= s@.skip(i as int + 1));
                assert(out@ + pct_decode(s@.skip(i as int + 1)) =~= pre + (seq![32u8]
                    + pct_decode(s@.skip(i as int + 1))));
            }
            i += 1;
        } else {
            out.push(b);
            proof {
                assert(s@.skip(i as int).skip(1) =~= s@.skip(i as int + 1));
                assert(out@ + pct_decode(s@.skip(i as int + 1)) =~= pre + (seq![s@[i as int]]
                    + pct_decode(s@.skip(i as int + 1))));
            }
            i += 1;
        }
    }
    proof {
        assert(s@.skip(i as int).len() == 0);
        assert(out@ + pct_decode(s@.skip(i as int)) =~= out@);
    }
    out
}

/// The value of one hex digit, if the byte is one.
fn hex_digit_val(b: u8) -> (r: Option<u8>)
    ensures
        r is Some <==> is_hex_digit(b),
        r is Some ==> r.unwrap() == hex_val(b) && r.unwrap() <= 15,
{
    if 48 <= b && b <= 57 {
        Some(b - 48)
    } else if 65 <= b && b <= 70 {
        Some(b - 55)
    } else if 97 <= b && b <= 102 {
        Some(b - 87)
    } else {
        None
    }
}

/// The query part of a request target: what follows the first `?`.
pub open spec fn query_of(uri: Seq<u8>) -> Seq<u8> {
    let q = find_sep(uri, 63);
    if q < uri.len() {
        uri.skip(q + 1)
    } else {
        Seq::empty()
    }
}

/// The key and value of one raw `key=value` piece.
pub open spec fn pair_key(p: Seq<u8>) -> Seq<u8> {
    p.take(find_sep(p, 61))
}

pub open spec fn pair_value(p: Seq<u8>) -> Seq<u8> {
    let e = find_sep(p, 61);
    if e < p.len() {
        p.skip(e + 1)
    } else {
        Seq::empty()
    }
}

/// Decoded text of a query key or value: the percent-decoding when it is
/// valid UTF-8, the raw text otherwise.
pub open spec fn decoded_text(raw: Seq<u8>) -> Seq<u8> {
    if valid_utf8(pct_decode(raw)) {
        pct_decode(raw)
    } else {
        raw
    }
}

/// The decoded query pairs of a request target, in order; empty pieces
/// between `&`s are skipped.
pub open spec fn query_pairs_of(uri: Seq<u8>) -> Seq<(Seq<u8>, Seq<u8>)> {
    spec_split(query_of(uri), 38).filter(|p: Seq<u8>| p.len() > 0).map_values(
        |p: Seq<u8>| (decoded_text(pair_key(p)), decoded_text(pair_value(p))),
    )
}

/// All values bound to one key, in order.
pub open spec fn values_for(pairs: Seq<(Seq<u8>, Seq<u8>)>, k: Seq<u8>) -> Seq<Seq<u8>>
    decreases pairs.len(),
{
    if pairs.len() == 0 {
        Seq::empty()
    } else if pairs[0].0 == k {
        seq![pairs[0].1] + values_for(pairs.drop_first(), k)
    } else {
        values_for(pairs.drop_first(), k)
    }
}

} // verus!

verus! {

/// Parses the query pairs of a request target.
pub fn parse_query(uri: &str) -> (r: Vec<(String, String)>)
    ensures
        r@.map_values(|p: (String, String)| (str_bytes(p.0), str_bytes(p.1))) == query_pairs_of(
            uri.spec_bytes(),
        ),
{
    let bytes = uri.as_bytes();
    proof {
        vstd::utf8::encode_utf8_valid_utf8(uri@);
    }
    let q = strutil::find_byte(bytes, 63);
    let qpart: &[u8] = if q < bytes.len() {
        proof {
            strutil::lemma_cut_at_ascii(bytes@, q as int);
        }
        vstd::slice::slice_subrange(bytes, q + 1, bytes.len())
    } else {
        vstd::slice::slice_subrange(bytes, bytes.len(), bytes.len())
    };
    proof {
        if q < bytes.len() {
            assert(qpart@ =~= query_of(uri.spec_bytes()));
        } else {
            assert(qpart@ =~= query_of(uri.spec_bytes()));
        }
        assert(valid_utf8(qpart@)) by {
            if q >= bytes.len() {
                assert(qpart@.len() == 0);
            }
        }
        strutil::lemma_split_pieces_valid(qpart@, 38);
    }
    let pieces = strutil::split_bytes(qpart, 38);
    let ghost piecesv = seqs_of(pieces@);
    let ghost keep = |p: Seq<u8>| p.len() > 0;
    let ghost conv = |p: Seq<u8>| (decoded_text(pair_key(p)), decoded_text(pair_value(p)));
    let mut out: Vec<(String, String)> = Vec::new();
    let ghost outview = |p: (String, String)| (str_bytes(p.0), str_bytes(p.1));
    let mut i: usize = 0;
    proof {
        reveal(Seq::filter);
        assert(piecesv.take(0) =~= Seq::<Seq<u8>>::empty());
        assert(out@.map_values(outview) =~= piecesv.take(0).filter(keep).map_values(conv));
    }
    while i < pieces.len()
        invariant
            i <= pieces@.len(),
            piecesv == seqs_of(pieces@),
            forall|k: int| 0 <= k < piecesv.len() ==> valid_utf8(#[trigger] piecesv[k]),
            keep == (|p: Seq<u8>| p.len() > 0),
            conv == (|p: Seq<u8>| (decoded_text(pair_key(p)), decoded_text(pair_value(p)))),
            outview == (|p: (String, String)| (str_bytes(p.0), str_bytes(p.1))),
            out@.map_values(outview) == piecesv.take(i as int).filter(keep).map_values(conv),
        decreases pieces@.len() - i,
    {
        let ghost prefix = piecesv.take(i as int);
        proof {
            assert(piecesv.take(i as int + 1).drop_last() =~= prefix);
            assert(piecesv.take(i as int + 1).last() == piecesv[i as int]);
            assert(piecesv[i as int] == pieces@[i as int]@);
        }
        let piece = &pieces[i];
        if piece.len() > 0 {
            let e = strutil::find_byte(piece.as_slice(), 61);
            let key_raw = vstd::slice::slice_subrange(piece.as_slice(), 0, e);
            let val_raw: &[u8] = if e < piece.len() {
                proof {
                    strutil::lemma_cut_at_ascii(piece@, e as int);
                }
                vstd::slice::slice_subrange(piece.as_slice(), e + 1, piece.len())
            } else {
                vstd::slice::slice_subrange(piece.as_slice(), piece.len(), piece.len())
            };
            proof {
                assert(key_raw@ =~= pair_key(piecesv[i as int]));
                if e < piece.len() {
                    assert(val_raw@ =~= pair_value(piecesv[i as int]));
                } else {
                    assert(val_raw@ =~= pair_value(piecesv[i as int]));
                }
                assert(valid_utf8(key_raw@)) by {
                    if e < piece.len() {
                        strutil::lemma_cut_at_ascii(piece@, e as int);
                        assert(key_raw@ =~= piece@.take(e as int));
                    } else {
                        assert(key_raw@ =~= piece@);
                    }
                }
                assert(valid_utf8(val_raw@)) by {
                    if e >= piece.len() {
                        assert(val_raw@.len() == 0);
                    }
                }
            }
            let key = decode_component(key_raw);
            let value = decode_component(val_raw);
            let ghost before = out@;
            out.push((key, value));
            proof {
                assert(out@ =~= before.push((key, value)));
                assert(outview((key, value)) == conv(piecesv[i as int]));
                assert forall|j: int| 0 <= j < out@.len() implies out@.map_values(outview)[j]
                    == before.map_values(outview).push(conv(piecesv[i as int]))[j] by {
                    if j < before.len() {
                        assert(out@[j] == before[j]);
                    }
                }
                assert(out@.map_values(outview) =~= before.map_values(outview).push(
                    conv(piecesv[i as int]),
                ));
                reveal(Seq::filter);
                let t = piecesv.take(i as int + 1);
                assert(t.len() > 0);
                assert(keep(t.last()));
                assert(t.filter(keep) == t.drop_last().filter(keep).push(t.last()));
                assert(t.drop_last().filter(keep) == prefix.filter(keep));
                strutil::lemma_map_push(prefix.filter(keep), conv, piecesv[i as int]);
                assert(t.filter(keep).map_values(conv) =~= prefix.filter(keep).map_values(
                    conv,
                ).push(conv(piecesv[i as int])));
            }
        } else {
            proof {
                reveal(Seq::filter);
                let t = piecesv.take(i as int + 1);
                assert(t.len() > 0);
                assert(!keep(t.last()));
                assert(t.filter(keep) == t.drop_last().filter(keep));
                assert(t.filter(keep) =~= prefix.filter(keep));
            }
        }
        i += 1;
    }
    proof {
        assert(piecesv.take(i as int) =~= piecesv);
    }
    out
}

/// Decodes one query key or value: the percent-decoded text when it is valid
/// UTF-8, the raw text otherwise.
fn decode_component(raw: &[u8]) -> (r: String)
    requires
        valid_utf8(raw@),
    ensures
        str_bytes(r) == decoded_text(raw@),
{
    proof {
        broadcast use vstd::utf8::decode_utf8_encode_utf8;

    }
    let decoded = pct_decode_bytes(raw);
    match strutil::utf8_to_string(decoded) {
        Some(s) => s,
        None => {
            match strutil::utf8_to_string(vstd::slice::slice_to_vec(raw)) {
                Some(s) => s,
                None => {
                    proof {
                        assert(false);
                    }
                    String::new()
                },
            }
        },
    }
}

} // verus!

verus! {

/// A decoded HTTP request, with the bindings and query parameters the
/// router and codec extracted.
#[derive(Debug)]
pub struct Request {
    pub method: Method,
    /// The request target as it stood on the request line.
    pub uri: String,
    pub version: Version,
    /// Header names and raw values, in arrival order.
    pub headers: Vec<(String, Vec<u8>)>,
    pub body: Body,
    pub params: Params,
    /// Decoded query pairs, in order of appearance.
    pub query: Vec<(String, String)>,
}

/// The mathematical value of a request.
#[verifier::ext_equal]
pub struct RequestV {
    pub method: Method,
    pub uri: Seq<u8>,
    pub version: Version,
    pub headers: Seq<(Seq<u8>, Seq<u8>)>,
    pub body: Option<Seq<u8>>,
    pub params: Seq<(Seq<u8>, Seq<u8>)>,
    pub query: Seq<(Seq<u8>, Seq<u8>)>,
}

impl View for Request {
    type V = RequestV;

    open spec fn view(&self) -> RequestV {
        RequestV {
            method: self.method,
            uri: str_bytes(self.uri),
            version: self.version,
            headers: self.headers@.map_values(|h: (String, Vec<u8>)| (str_bytes(h.0), h.1@)),
            body: self.body@,
            params: self.params@,
            query: self.query@.map_values(|p: (String, String)| (str_bytes(p.0), str_bytes(p.1))),
        }
    }
}

/// First header whose name equals `name` up to ASCII case; its raw value.
pub open spec fn header_lookup(headers: Seq<(Seq<u8>, Seq<u8>)>, name: Seq<u8>) -> Option<Seq<u8>>
    decreases headers.len(),
{
    if headers.len() == 0 {
        None
    } else if strutil::lower_bytes(headers[0].0) == strutil::lower_bytes(name) {
        Some(headers[0].1)
    } else {
        header_lookup(headers.drop_first(), name)
    }
}

impl Request {
    /// Builds a request from its decoded parts, extracting the query pairs
    /// from the request target.
    pub fn new(
        method: Method,
        uri: String,
        version: Version,
        headers: Vec<(String, Vec<u8>)>,
        body: Body,
        params: Params,
    ) -> (r: Request)
        ensures
            r@ == (RequestV {
                method,
                uri: str_bytes(uri),
                version,
                headers: headers@.map_values(|h: (String, Vec<u8>)| (str_bytes(h.0), h.1@)),
                body: body@,
                params: params@,
                query: query_pairs_of(str_bytes(uri)),
            }),
    {
        let query = parse_query(uri.as_str());
        let r = Request { method, uri, version, headers, body, params, query };
        proof {
            assert(r@ =~= (RequestV {
                method,
                uri: str_bytes(r.uri),
                version,
                headers: r.headers@.map_values(|h: (String, Vec<u8>)| (str_bytes(h.0), h.1@)),
                body: r.body@,
                params: r.params@,
                query: query_pairs_of(str_bytes(r.uri)),
            }));
        }
        r
    }

    /// A `GET` request for the given target, with no headers and no body.
    pub fn get(path: &str) -> (r: Result<Request, crate::error::HttpError>)
        ensures
            r matches Ok(req) && req@ == (RequestV {
                method: Method::GET,
                uri: path.spec_bytes(),
                version: Version::Http11,
                headers: Seq::empty(),
                body: None,
                params: Seq::empty(),
                query: query_pairs_of(path.spec_bytes()),
            }),
    {
        let r = Request::new(
            Method::GET,
            String::from_str(path),
            Version::Http11,
            Vec::new(),
            Body(None),
            Params::new(),
        );
        proof {
            assert(r@.headers =~= Seq::<(Seq<u8>, Seq<u8>)>::empty());
            assert(r@.params =~= Seq::<(Seq<u8>, Seq<u8>)>::empty());
            assert(r@ =~= (RequestV {
                method: Method::GET,
                uri: path.spec_bytes(),
                version: Version::Http11,
                headers: Seq::empty(),
                body: None,
                params: Seq::empty(),
                query: query_pairs_of(path.spec_bytes()),
            }));
        }
        Ok(r)
    }

    /// The path parameter bound to `name` by the matched route.
    pub fn param(&self, name: &str) -> (r: Option<&str>)
        ensures
            match lookup(self@.params, name.spec_bytes()) {
                Some(v) => r is Some && r.unwrap().spec_bytes() == v,
                None => r is None,
            },
    {
        self.params.get(name)
    }

    /// All path parameters.
    pub fn params(&self) -> (r: &Params)
        ensures
            r@ == self@.params,
    {
        &self.params
    }

    /// Mutable access to the path parameters.
    pub fn params_mut(&mut self) -> (r: &mut Params)
        ensures
            *r == old(self).params,
            *final(self) == (Request { params: *final(r), ..*old(self) }),
    {
        &mut self.params
    }

    /// The raw bytes of the first header with the given name, compared
    /// ignoring ASCII case.
    pub fn header_bytes(&self, name: &str) -> (r: Option<&[u8]>)
        ensures
            match header_lookup(self@.headers, name.spec_bytes()) {
                Some(v) => r is Some && r.unwrap()@ == v,
                None => r is None,
            },
    {
        let ghost hs = self@.headers;
        let mut i: usize = 0;
        proof {
            assert(hs.skip(0) =~= hs);
        }
        while i < self.headers.len()
            invariant
                i <= self.headers@.len(),
                hs == self@.headers,
                header_lookup(hs, name.spec_bytes()) == header_lookup(
                    hs.skip(i as int),
                    name.spec_bytes(),
                ),
            decreases self.headers@.len() - i,
        {
            proof {
                assert(hs.skip(i as int)[0] == hs[i as int]);
                assert(hs.skip(i as int).drop_first() =~= hs.skip(i as int + 1));
            }
            if strutil::eq_ignore_ascii_case(self.headers[i].0.as_str().as_bytes(), name.as_bytes()) {
                return Some(self.headers[i].1.as_slice());
            }
            i += 1;
        }
        None
    }

    /// The first header with the given name as text; `None` when the header
    /// is absent or its value is not UTF-8.
    pub fn header(&self, name: &str) -> (r: Option<&str>)
        ensures
            match header_lookup(self@.headers, name.spec_bytes()) {
                Some(v) => {
                    &&& valid_utf8(v) <==> r is Some
                    &&& r matches Some(t) ==> t.spec_bytes() == v
                },
                None => r is None,
            },
    {
        proof {
            broadcast use vstd::utf8::decode_utf8_encode_utf8;

        }
        match self.header_bytes(name) {
            Some(v) => strutil::bytes_as_str(v),
            None => None,
        }
    }

    /// Same as `header`; kept as the name convenience callers use.
    pub fn header_str(&self, name: &str) -> (r: Option<&str>)
        ensures
            match header_lookup(self@.headers, name.spec_bytes()) {
                Some(v) => {
                    &&& valid_utf8(v) <==> r is Some
                    &&& r matches Some(t) ==> t.spec_bytes() == v
                },
                None => r is None,
            },
    {
        self.header(name)
    }

    /// All decoded query pairs in order of appearance.
    pub fn query_all(&self) -> (r: &Vec<(String, String)>)
        ensures
            r@.map_values(|p: (String, String)| (str_bytes(p.0), str_bytes(p.1))) == self@.query,
    {
        &self.query
    }

    /// The first query value for the given key.
    pub fn query_first(&self, name: &str) -> (r: Option<&str>)
        ensures
            match lookup(self@.query, name.spec_bytes()) {
                Some(v) => r is Some && r.unwrap().spec_bytes() == v,
                None => r is None,
            },
    {
        let ghost qs = self@.query;
        let mut i: usize = 0;
        proof {
            assert(qs.skip(0) =~= qs);
        }
        while i < self.query.len()
            invariant
                i <= self.query@.len(),
                qs == self@.query,
                lookup(qs, name.spec_bytes()) == lookup(qs.skip(i as int), name.spec_bytes()),
            decreases self.query@.len() - i,
        {
            proof {
                assert(qs.skip(i as int)[0] == qs[i as int]);
                assert(qs.skip(i as int).drop_first() =~= qs.skip(i as int + 1));
            }
            if strutil::bytes_eq(self.query[i].0.as_str().as_bytes(), name.as_bytes()) {
                return Some(self.query[i].1.as_str());
            }
            i += 1;
        }
        None
    }

    /// All query values for the given key, in order; `None` when the key
    /// does not appear.
    pub fn query(&self, name: &str) -> (r: Option<Vec<String>>)
        ensures
            ({
                let vs = values_for(self@.query, name.spec_bytes());
                match r {
                    Some(v) => vs.len() > 0 && v@.map_values(|x: String| str_bytes(x)) == vs,
                    None => vs.len() == 0,
                }
            }),
    {
        let ghost qs = self@.query;
        let ghost k = name.spec_bytes();
        let ghost toview = |x: String| str_bytes(x);
        let mut out: Vec<String> = Vec::new();
        let mut i: usize = 0;
        proof {
            assert(qs.skip(0) =~= qs);
            assert(out@.map_values(toview) + values_for(qs, k) =~= values_for(qs, k));
        }
        while i < self.query.len()
            invariant
                i <= self.query@.len(),
                qs == self@.query,
                k == name.spec_bytes(),
                toview == (|x: String| str_bytes(x)),
                values_for(qs, k) == out@.map_values(toview) + values_for(qs.skip(i as int), k),
            decreases self.query@.len() - i,
        {
            proof {
                assert(qs.skip(i as int)[0] == qs[i as int]);
                assert(qs.skip(i as int).drop_first() =~= qs.skip(i as int + 1));
                assert(qs[i as int] == (str_bytes(self.query@[i as int].0), str_bytes(
                    self.query@[i as int].1,
                )));
            }
            if strutil::bytes_eq(self.query[i].0.as_str().as_bytes(), name.as_bytes()) {
                let ghost before = out@;
                out.push(self.query[i].1.clone());
                proof {
                    assert(out@ =~= before.push(self.query@[i as int].1));
                    strutil::lemma_map_push(before, toview, self.query@[i as int].1);
                    assert(out@.map_values(toview) + values_for(qs.skip(i as int + 1), k)
                        =~= before.map_values(toview) + (seq![qs[i as int].1] + values_for(
                        qs.skip(i as int + 1),
                        k,
                    )));
                }
            }
            i += 1;
        }
        proof {
            assert(qs.skip(i as int).len() == 0);
            assert(out@.map_values(toview) + values_for(qs.skip(i as int), k) =~= out@.map_values(
                toview,
            ));
        }
        if out.len() == 0 {
            None
        } else {
            Some(out)
        }
    }
}

impl Default for Request {
    /// An empty `GET /` request.
    fn default() -> (r: Request)
        ensures
            r@.method == Method::GET,
            r@.version == Version::Http11,
            r@.headers.len() == 0,
            r@.body is None,
            r@.params.len() == 0,
            r@.query.len() == 0,
    {
        let r = Request {
            method: Method::GET,
            uri: String::new(),
            version: Version::Http11,
            headers: Vec::new(),
            body: Body(None),
            params: Params::new(),
            query: Vec::new(),
        };
        proof {
            assert(r@.headers =~= Seq::<(Seq<u8>, Seq<u8>)>::empty());
            assert(r@.query =~= Seq::<(Seq<u8>, Seq<u8>)>::empty());
        }
        r
    }
}

} // verus!
