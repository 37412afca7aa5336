//! The path router: registered (method, pattern) routes compiled into a
//! matcher over path segments.
//!
//! A pattern is a `/`-separated template.  A segment starting with `:`
//! matches exactly one path segment and binds it; a segment starting with `*`
//! must be last, matches the whole remainder (slashes included) and binds it;
//! any other segment matches literally.  At a given depth a literal beats a
//! named segment, and a wildcard applies only when neither does.

use vstd::prelude::*;
use vstd::string::{StrSliceExecFns, StringSliceAdditionalSpecFns};
use vstd::utf8::valid_utf8;
use crate::strutil::{self, spec_split, spec_join, seqs_of, str_bytes};
use crate::params::Params;
use crate::error::HttpError;
use crate::cache::{ChangeDetection, EvictionPolicy};

verus! {

/// An HTTP request method.
#[derive(Clone, Copy, Debug, PartialEq, Eq, Hash, Structural)]
pub enum Method {
    GET,
    PUT,
    POST,
    DELETE,
    OPTIONS,
    HEAD,
    PATCH,
    CONNECT,
    TRACE,
}

impl Method {
    /// The method a request-line token names.
    pub open spec fn spec_from_token(t: Seq<u8>) -> Option<Method> {
        if t == "GET".spec_bytes() {
            Some(Method::GET)
        } else if t == "PUT".spec_bytes() {
            Some(Method::PUT)
        } else if t == "POST".spec_bytes() {
            Some(Method::POST)
        } else if t == "DELETE".spec_bytes() {
            Some(Method::DELETE)
        } else if t == "OPTIONS".spec_bytes() {
            Some(Method::OPTIONS)
        } else if t == "HEAD".spec_bytes() {
            Some(Method::HEAD)
        } else if t == "PATCH".spec_bytes() {
            Some(Method::PATCH)
        } else if t == "CONNECT".spec_bytes() {
            Some(Method::CONNECT)
        } else if t == "TRACE".spec_bytes() {
            Some(Method::TRACE)
        } else {
            None
        }
    }

    /// Parses a request-line token into a method.
    pub fn from_token(t: &[u8]) -> (r: Option<Method>)
        ensures
            r == Method::spec_from_token(t@),
    {
        if strutil::bytes_eq(t, "GET".as_bytes()) {
            Some(Method::GET)
        } else if strutil::bytes_eq(t, "PUT".as_bytes()) {
            Some(Method::PUT)
        } else if strutil::bytes_eq(t, "POST".as_bytes()) {
            Some(Method::POST)
        } else if strutil::bytes_eq(t, "DELETE".as_bytes()) {
            Some(Method::DELETE)
        } else if strutil::bytes_eq(t, "OPTIONS".as_bytes()) {
            Some(Method::OPTIONS)
        } else if strutil::bytes_eq(t, "HEAD".as_bytes()) {
            Some(Method::HEAD)
        } else if strutil::bytes_eq(t, "PATCH".as_bytes()) {
            Some(Method::PATCH)
        } else if strutil::bytes_eq(t, "CONNECT".as_bytes()) {
            Some(Method::CONNECT)
        } else if strutil::bytes_eq(t, "TRACE".as_bytes()) {
            Some(Method::TRACE)
        } else {
            None
        }
    }
}

/// Whether a route's handler runs on the connection's own thread or a pooled one.
#[allow(non_camel_case_types)]
#[derive(Clone, Copy, Debug, PartialEq, Eq, Structural)]
pub enum Threading {
    /// Route is processed in the same thread as the connection.
    SAME,
    /// Route is processed in a pooled thread.
    SEPERATE,
}

/// One compiled pattern segment.
#[derive(Debug)]
pub enum PatSeg {
    Literal(Vec<u8>),
    Named(Vec<u8>),
    Wildcard(Vec<u8>),
}

/// The mathematical value of a pattern segment.
pub enum SegV {
    Literal(Seq<u8>),
    Named(Seq<u8>),
    Wildcard(Seq<u8>),
}

impl View for PatSeg {
    type V = SegV;

    open spec fn view(&self) -> SegV {
        match self {
            PatSeg::Literal(v) => SegV::Literal(v@),
            PatSeg::Named(v) => SegV::Named(v@),
            PatSeg::Wildcard(v) => SegV::Wildcard(v@),
        }
    }
}

/// The text a segment carries: literal text or a parameter name.
pub open spec fn seg_payload(s: SegV) -> Seq<u8> {
    match s {
        SegV::Literal(v) => v,
        SegV::Named(v) => v,
        SegV::Wildcard(v) => v,
    }
}

// ---------------------------------------------------------------------------
// Paths and patterns as segment sequences
// ---------------------------------------------------------------------------

/// The segments of a request path: the pieces between the slashes, kept
/// exactly as written, so two different paths never share a segment
/// sequence.
pub open spec fn path_parts(s: Seq<u8>) -> Seq<Seq<u8>> {
    spec_split(s, 47)
}

/// How one pattern piece is classified.
pub open spec fn classify(piece: Seq<u8>) -> SegV {
    if piece.len() > 0 && piece[0] == 58 {
        SegV::Named(piece.drop_first())
    } else if piece.len() > 0 && piece[0] == 42 {
        SegV::Wildcard(piece.drop_first())
    } else {
        SegV::Literal(piece)
    }
}

/// The segments of a pattern string.
pub open spec fn pattern_of(s: Seq<u8>) -> Seq<SegV> {
    path_parts(s).map_values(|p: Seq<u8>| classify(p))
}

/// A pattern is valid when a wildcard can only be its last segment.
pub open spec fn pattern_valid(segs: Seq<SegV>) -> bool {
    forall|i: int| 0 <= i < segs.len() && segs[i] is Wildcard ==> i == segs.len() - 1
}

/// Splits a path into its segments.
pub fn split_path(path: &[u8]) -> (r: Vec<Vec<u8>>)
    ensures
        seqs_of(r@) == path_parts(path@),
        valid_utf8(path@) ==> forall|k: int|
            0 <= k < r@.len() ==> valid_utf8(#[trigger] seqs_of(r@)[k]),
{
    proof {
        if valid_utf8(path@) {
            strutil::lemma_split_pieces_valid(path@, 47);
        }
    }
    strutil::split_bytes(path, 47)
}

/// Compiles a pattern string into segments; fails when a wildcard is not the
/// last segment.
pub fn parse_pattern(pattern: &str) -> (r: Result<Vec<PatSeg>, HttpError>)
    ensures
        match r {
            Ok(segs) => {
                &&& segs@.map_values(|s: PatSeg| s@) == pattern_of(pattern.spec_bytes())
                &&& pattern_valid(pattern_of(pattern.spec_bytes()))
                &&& forall|k: int|
                    0 <= k < segs@.len() ==> valid_utf8(seg_payload(#[trigger] segs@[k]@))
            },
            Err(e) => {
                &&& !pattern_valid(pattern_of(pattern.spec_bytes()))
                &&& e.status.code == 500
            },
        },
{
    let bytes = pattern.as_bytes();
    proof {
        vstd::utf8::encode_utf8_valid_utf8(pattern@);
    }
    let mut parts = split_path(bytes);
    let ghost pieces = seqs_of(parts@);
    let mut segs: Vec<PatSeg> = Vec::new();
    let n = parts.len();
    let mut i: usize = 0;
    while i < n
        invariant
            n == parts@.len(),
            i <= n,
            segs@.len() == i,
            pieces == seqs_of(parts@),
            pieces == path_parts(pattern.spec_bytes()),
            forall|k: int| 0 <= k < pieces.len() ==> valid_utf8(#[trigger] pieces[k]),
            forall|k: int| 0 <= k < i ==> #[trigger] segs@[k]@ == classify(pieces[k]),
            forall|k: int| 0 <= k < i ==> valid_utf8(seg_payload(#[trigger] segs@[k]@)),
        decreases n - i,
    {
        let piece = strutil::clone_bytes(&parts[i]);
        proof {
            assert(piece@ == pieces[i as int]);
            if piece@.len() > 0 && piece@[0] < 128 {
                strutil::lemma_ascii_head_tail_valid(piece@);
            }
        }
        if piece.len() > 0 && piece[0] == 58 {
            let mut rest = piece;
            rest.remove(0);
            proof {
                assert(rest@ =~= pieces[i as int].drop_first());
            }
            segs.push(PatSeg::Named(rest));
        } else if piece.len() > 0 && piece[0] == 42 {
            let mut rest = piece;
            rest.remove(0);
            proof {
                assert(rest@ =~= pieces[i as int].drop_first());
            }
            segs.push(PatSeg::Wildcard(rest));
        } else {
            segs.push(PatSeg::Literal(piece));
        }
        i += 1;
    }
    proof {
        assert(segs@.map_values(|s: PatSeg| s@) =~= pattern_of(pattern.spec_bytes()));
    }
    // a wildcard may only stand last
    let m = segs.len();
    let mut j: usize = 0;
    while j < m
        invariant
            m == segs@.len(),
            j <= m,
            segs@.map_values(|s: PatSeg| s@) == pattern_of(pattern.spec_bytes()),
            forall|k: int| 0 <= k < segs@.len() ==> valid_utf8(seg_payload(#[trigger] segs@[k]@)),
            forall|k: int| 0 <= k < j && segs@[k]@ is Wildcard ==> k == segs@.len() - 1,
        decreases m - j,
    {
        let is_wild = match &segs[j] {
            PatSeg::Wildcard(_) => true,
            _ => false,
        };
        if is_wild && j + 1 != m {
            proof {
                let segsv = segs@.map_values(|s: PatSeg| s@);
                assert(segsv[j as int] == segs@[j as int]@);
                assert(!pattern_valid(pattern_of(pattern.spec_bytes())));
            }
            return Err(HttpError::internal_server_error(
                "wildcard segment must be the last segment of a pattern",
            ));
        }
        j += 1;
    }
    proof {
        let segsv = segs@.map_values(|s: PatSeg| s@);
        assert forall|k: int|
            0 <= k < segsv.len() && segsv[k] is Wildcard implies k == segsv.len() - 1 by {
            assert(segsv[k] == segs@[k]@);
        }
    }
    Ok(segs)
}

} // verus!

verus! {

// ---------------------------------------------------------------------------
// Matching one pattern against path segments
// ---------------------------------------------------------------------------

/// Matches pattern segments against path segments; on success, the bindings
/// in segment order.  A named segment binds one path segment; a wildcard
/// binds the joined remainder and needs at least one segment.
pub open spec fn spec_match(segs: Seq<SegV>, parts: Seq<Seq<u8>>) -> Option<
    Seq<(Seq<u8>, Seq<u8>)>,
>
    decreases segs.len(),
{
    if segs.len() == 0 {
        if parts.len() == 0 {
            Some(Seq::empty())
        } else {
            None
        }
    } else {
        match segs[0] {
            SegV::Literal(t) => if parts.len() > 0 && parts[0] == t {
                spec_match(segs.drop_first(), parts.drop_first())
            } else {
                None
            },
            SegV::Named(n) => if parts.len() > 0 {
                match spec_match(segs.drop_first(), parts.drop_first()) {
                    Some(bs) => Some(seq![(n, parts[0])] + bs),
                    None => None,
                }
            } else {
                None
            },
            SegV::Wildcard(n) => if parts.len() > 0 {
                Some(seq![(n, spec_join(parts, 47))])
            } else {
                None
            },
        }
    }
}

/// Matches a compiled pattern against path segments, building the bindings.
fn match_segments(segs: &Vec<PatSeg>, parts: &Vec<Vec<u8>>) -> (r: Option<Params>)
    requires
        forall|k: int| 0 <= k < segs@.len() ==> valid_utf8(seg_payload(#[trigger] segs@[k]@)),
        forall|k: int| 0 <= k < parts@.len() ==> valid_utf8(#[trigger] seqs_of(parts@)[k]),
    ensures
        match spec_match(segs@.map_values(|s: PatSeg| s@), seqs_of(parts@)) {
            Some(bs) => r is Some && r.unwrap()@ == bs,
            None => r is None,
        },
{
    let ghost segsv = segs@.map_values(|s: PatSeg| s@);
    let ghost partsv = seqs_of(parts@);
    let mut params = Params::new();
    let mut i: usize = 0;
    proof {
        assert(segsv.skip(0) =~= segsv);
        assert(partsv.skip(0) =~= partsv);
        assert(params@ + spec_match(segsv, partsv).unwrap() =~= spec_match(
            segsv,
            partsv,
        ).unwrap());
    }
    while i < segs.len()
        invariant
            i <= segs@.len(),
            i <= parts@.len(),
            segsv == segs@.map_values(|s: PatSeg| s@),
            partsv == seqs_of(parts@),
            forall|k: int| 0 <= k < segs@.len() ==> valid_utf8(seg_payload(#[trigger] segs@[k]@)),
            forall|k: int| 0 <= k < parts@.len() ==> valid_utf8(#[trigger] seqs_of(parts@)[k]),
            match spec_match(segsv.skip(i as int), partsv.skip(i as int)) {
                Some(bs) => spec_match(segsv, partsv) == Some(params@ + bs),
                None => spec_match(segsv, partsv) is None,
            },
        decreases segs@.len() - i,
    {
        proof {
            assert(segsv.skip(i as int)[0] == segsv[i as int]);
            assert(segsv.skip(i as int).drop_first() =~= segsv.skip(i as int + 1));
            assert(partsv.skip(i as int).len() == partsv.len() - i);
            if i < parts@.len() {
                assert(partsv.skip(i as int)[0] == partsv[i as int]);
                assert(partsv.skip(i as int).drop_first() =~= partsv.skip(i as int + 1));
            }
        }
        match &segs[i] {
            PatSeg::Literal(t) => {
                if i == parts.len() {
                    return None;
                }
                if !strutil::bytes_eq(t.as_slice(), parts[i].as_slice()) {
                    return None;
                }
            },
            PatSeg::Named(n) => {
                if i == parts.len() {
                    return None;
                }
                let key = strutil::bytes_to_string(strutil::clone_bytes(n));
                let value = strutil::bytes_to_string(strutil::clone_bytes(&parts[i]));
                let ghost before = params@;
                params.push(key, value);
                proof {
                    let rest = spec_match(segsv.skip(i as int + 1), partsv.skip(i as int + 1));
                    if rest is Some {
                        assert(params@ + rest.unwrap() =~= before + (seq![
                            (seg_payload(segsv[i as int]), partsv[i as int]),
                        ] + rest.unwrap()));
                    }
                }
            },
            PatSeg::Wildcard(n) => {
                if i == parts.len() {
                    return None;
                }
                let key = strutil::bytes_to_string(strutil::clone_bytes(n));
                proof {
                    assert(forall|k: int|
                        0 <= k < partsv.skip(i as int).len() ==> valid_utf8(
                            #[trigger] partsv.skip(i as int)[k],
                        ));
                    strutil::lemma_join_valid(partsv.skip(i as int), 47);
                }
                let joined = strutil::join_bytes(parts, i, 47);
                let value = strutil::bytes_to_string(joined);
                let ghost before = params@;
                params.push(key, value);
                proof {
                    assert(params@ =~= before + seq![
                        (seg_payload(segsv[i as int]), spec_join(partsv.skip(i as int), 47)),
                    ]);
                }
                return Some(params);
            },
        }
        i += 1;
    }
    if i == parts.len() {
        proof {
            assert(segsv.skip(i as int).len() == 0);
            assert(partsv.skip(i as int).len() == 0);
            assert(params@ + Seq::<(Seq<u8>, Seq<u8>)>::empty() =~= params@);
        }
        Some(params)
    } else {
        proof {
            assert(segsv.skip(i as int).len() == 0);
            assert(partsv.skip(i as int).len() > 0);
        }
        None
    }
}

// ---------------------------------------------------------------------------
// Precedence between patterns
// ---------------------------------------------------------------------------

/// Precedence class of a segment: literals beat named segments, named
/// segments beat wildcards.
pub open spec fn seg_rank(s: SegV) -> int {
    match s {
        SegV::Literal(_) => 0,
        SegV::Named(_) => 1,
        SegV::Wildcard(_) => 2,
    }
}

/// Lexicographic comparison of two patterns by segment rank; a pattern that
/// ends first compares smaller.
pub open spec fn rank_cmp_s(a: Seq<SegV>, b: Seq<SegV>) -> int
    decreases a.len(),
{
    if a.len() == 0 && b.len() == 0 {
        0
    } else if a.len() == 0 {
        -1
    } else if b.len() == 0 {
        1
    } else if seg_rank(a[0]) < seg_rank(b[0]) {
        -1
    } else if seg_rank(a[0]) > seg_rank(b[0]) {
        1
    } else {
        rank_cmp_s(a.drop_first(), b.drop_first())
    }
}

pub proof fn lemma_rank_cmp_refl(a: Seq<SegV>)
    ensures
        rank_cmp_s(a, a) == 0,
    decreases a.len(),
{
    if a.len() > 0 {
        lemma_rank_cmp_refl(a.drop_first());
    }
}

/// Compares two compiled patterns by precedence.
fn rank_cmp(a: &Vec<PatSeg>, b: &Vec<PatSeg>) -> (r: i32)
    ensures
        r == rank_cmp_s(a@.map_values(|s: PatSeg| s@), b@.map_values(|s: PatSeg| s@)),
{
    let ghost av = a@.map_values(|s: PatSeg| s@);
    let ghost bv = b@.map_values(|s: PatSeg| s@);
    let mut i: usize = 0;
    proof {
        assert(av.skip(0) =~= av);
        assert(bv.skip(0) =~= bv);
    }
    loop
        invariant
            i <= a@.len(),
            i <= b@.len(),
            av == a@.map_values(|s: PatSeg| s@),
            bv == b@.map_values(|s: PatSeg| s@),
            rank_cmp_s(av, bv) == rank_cmp_s(av.skip(i as int), bv.skip(i as int)),
        decreases a@.len() - i,
    {
        proof {
            if i < a@.len() {
                assert(av.skip(i as int)[0] == av[i as int]);
                assert(av.skip(i as int).drop_first() =~= av.skip(i as int + 1));
            }
            if i < b@.len() {
                assert(bv.skip(i as int)[0] == bv[i as int]);
                assert(bv.skip(i as int).drop_first() =~= bv.skip(i as int + 1));
            }
        }
        if i == a.len() && i == b.len() {
            return 0;
        }
        if i == a.len() {
            return -1;
        }
        if i == b.len() {
            return 1;
        }
        let ra: i32 = match &a[i] {
            PatSeg::Literal(_) => 0,
            PatSeg::Named(_) => 1,
            PatSeg::Wildcard(_) => 2,
        };
        let rb: i32 = match &b[i] {
            PatSeg::Literal(_) => 0,
            PatSeg::Named(_) => 1,
            PatSeg::Wildcard(_) => 2,
        };
        if ra < rb {
            return -1;
        }
        if ra > rb {
            return 1;
        }
        i += 1;
    }
}

} // verus!

verus! {

// ---------------------------------------------------------------------------
// Routes and routers
// ---------------------------------------------------------------------------

/// What a static-file route serves: the filesystem path and cache policies.
#[derive(Debug)]
pub struct StaticFileConfig {
    pub file_path: String,
    pub change_detection: ChangeDetection,
    pub eviction_policy: EvictionPolicy,
}

/// The mathematical value of a static-file configuration.
pub struct StaticCfgV {
    pub file_path: Seq<u8>,
    pub change_detection: ChangeDetection,
    pub eviction_policy: EvictionPolicy,
}

impl View for StaticFileConfig {
    type V = StaticCfgV;

    open spec fn view(&self) -> StaticCfgV {
        StaticCfgV {
            file_path: str_bytes(self.file_path),
            change_detection: self.change_detection,
            eviction_policy: self.eviction_policy,
        }
    }
}

/// One registered route.
#[derive(Debug)]
pub struct Route {
    /// The pattern string the route was registered with.
    pub path: String,
    pub method: Method,
    /// Whether the handler runs inline or on a pooled thread.
    pub threading: Threading,
    /// The compiled pattern.
    pub segments: Vec<PatSeg>,
    /// Set when the route serves static files through the cache.
    pub static_file: Option<StaticFileConfig>,
}

/// The mathematical value of a route.
pub struct RouteV {
    pub path: Seq<u8>,
    pub method: Method,
    pub threading: Threading,
    pub segs: Seq<SegV>,
    pub static_file: Option<StaticCfgV>,
}

impl View for Route {
    type V = RouteV;

    open spec fn view(&self) -> RouteV {
        RouteV {
            path: str_bytes(self.path),
            method: self.method,
            threading: self.threading,
            segs: self.segments@.map_values(|s: PatSeg| s@),
            static_file: match self.static_file {
                Some(c) => Some(c@),
                None => None,
            },
        }
    }
}

/// A route is well formed when its pattern is valid and each segment's text
/// is valid UTF-8.
pub open spec fn route_wf(r: RouteV) -> bool {
    &&& pattern_valid(r.segs)
    &&& forall|k: int| 0 <= k < r.segs.len() ==> valid_utf8(seg_payload(#[trigger] r.segs[k]))
}

impl Route {
    pub fn get_path(&self) -> (r: &str)
        ensures
            r.spec_bytes() == self@.path,
    {
        self.path.as_str()
    }

    /// The current thread model of the route.
    pub fn get_threading(&self) -> (r: &Threading)
        ensures
            *r == self.threading,
    {
        &self.threading
    }

    /// Route is processed in a pooled thread.
    pub fn seperate_thread(&mut self)
        ensures
            *final(self) == (Route { threading: Threading::SEPERATE, ..*old(self) }),
    {
        self.threading = Threading::SEPERATE;
    }

    /// Route is processed in the same thread as the connection.
    pub fn same_thread(&mut self)
        ensures
            *final(self) == (Route { threading: Threading::SAME, ..*old(self) }),
    {
        self.threading = Threading::SAME;
    }
}

/// A route matches when its method equals the request's and its pattern
/// matches the path segments.
pub open spec fn route_matches(r: RouteV, m: Method, parts: Seq<Seq<u8>>) -> bool {
    r.method == m && spec_match(r.segs, parts) is Some
}

/// The threading a plain registration gets: requests that only read run
/// inline, everything else on the pool.
pub open spec fn default_threading(m: Method) -> Threading {
    match m {
        Method::GET => Threading::SAME,
        Method::OPTIONS => Threading::SAME,
        _ => Threading::SEPERATE,
    }
}

/// Index of the best match among the first `n` routes: lowest precedence
/// rank, and among equals the earliest registered.
pub open spec fn spec_resolve_upto(
    routes: Seq<RouteV>,
    m: Method,
    parts: Seq<Seq<u8>>,
    n: int,
) -> Option<int>
    decreases n,
{
    if n <= 0 {
        None
    } else {
        let prev = spec_resolve_upto(routes, m, parts, n - 1);
        if route_matches(routes[n - 1], m, parts) {
            match prev {
                Some(j) => if rank_cmp_s(routes[n - 1].segs, routes[j].segs) == -1 {
                    Some(n - 1)
                } else {
                    Some(j)
                },
                None => Some(n - 1),
            }
        } else {
            prev
        }
    }
}

/// Index of the route that resolves a request, if any.
pub open spec fn spec_resolve(routes: Seq<RouteV>, m: Method, parts: Seq<Seq<u8>>) -> Option<int> {
    spec_resolve_upto(routes, m, parts, routes.len() as int)
}

/// What `spec_resolve` promises: the chosen route matches, no matching route
/// has a smaller rank, earlier ties win, and a `None` means nothing matches.
pub proof fn lemma_spec_resolve_props(routes: Seq<RouteV>, m: Method, parts: Seq<Seq<u8>>, n: int)
    requires
        0 <= n <= routes.len(),
    ensures
        match spec_resolve_upto(routes, m, parts, n) {
            Some(idx) => {
                &&& 0 <= idx < n
                &&& route_matches(routes[idx], m, parts)
                &&& forall|j: int|
                    0 <= j < n && route_matches(#[trigger] routes[j], m, parts) ==> rank_cmp_s(
                        routes[idx].segs,
                        routes[j].segs,
                    ) == -1 || (rank_cmp_s(routes[idx].segs, routes[j].segs) == 0 && idx <= j)
            },
            None => forall|j: int| 0 <= j < n ==> !route_matches(#[trigger] routes[j], m, parts),
        },
    decreases n,
{
    if n > 0 {
        lemma_spec_resolve_props(routes, m, parts, n - 1);
        let prev = spec_resolve_upto(routes, m, parts, n - 1);
        let cur = spec_resolve_upto(routes, m, parts, n);
        if route_matches(routes[n - 1], m, parts) && prev is Some {
            let p = prev.unwrap();
            lemma_rank_cmp_total(routes[n - 1].segs, routes[p].segs);
            lemma_rank_cmp_total(routes[p].segs, routes[n - 1].segs);
            if rank_cmp_s(routes[n - 1].segs, routes[p].segs) != -1 {
                assert(cur == prev);
                assert(rank_cmp_s(routes[n - 1].segs, routes[p].segs) == 0 || rank_cmp_s(
                    routes[n - 1].segs,
                    routes[p].segs,
                ) == 1);
                assert(rank_cmp_s(routes[p].segs, routes[n - 1].segs) == -1 || (rank_cmp_s(
                    routes[p].segs,
                    routes[n - 1].segs,
                ) == 0 && p <= n - 1));
            }
            if rank_cmp_s(routes[n - 1].segs, routes[p].segs) == -1 {
                assert forall|j: int|
                    0 <= j < n && route_matches(#[trigger] routes[j], m, parts) implies rank_cmp_s(
                    routes[n - 1].segs,
                    routes[j].segs,
                ) == -1 || (rank_cmp_s(routes[n - 1].segs, routes[j].segs) == 0 && n - 1 <= j) by {
                    if j < n - 1 {
                        lemma_rank_cmp_trans(routes[n - 1].segs, routes[p].segs, routes[j].segs);
                    } else {
                        lemma_rank_cmp_refl(routes[n - 1].segs);
                    }
                }
            }
        }
        if cur is Some {
            let idx = cur.unwrap();
            lemma_rank_cmp_refl(routes[idx].segs);
        }
    }
}

/// The rank comparison is transitive.
pub proof fn lemma_rank_cmp_trans(a: Seq<SegV>, b: Seq<SegV>, c: Seq<SegV>)
    ensures
        rank_cmp_s(a, b) == -1 && rank_cmp_s(b, c) <= 0 ==> rank_cmp_s(a, c) == -1,
        rank_cmp_s(a, b) <= 0 && rank_cmp_s(b, c) == -1 ==> rank_cmp_s(a, c) == -1,
        rank_cmp_s(a, b) == 0 && rank_cmp_s(b, c) == 0 ==> rank_cmp_s(a, c) == 0,
    decreases a.len() + b.len() + c.len(),
{
    lemma_rank_cmp_total(a, b);
    lemma_rank_cmp_total(b, c);
    lemma_rank_cmp_total(a, c);
    if a.len() > 0 && b.len() > 0 && c.len() > 0 {
        lemma_rank_cmp_trans(a.drop_first(), b.drop_first(), c.drop_first());
    }
}

/// The rank comparison behaves like a three-way comparison.
pub proof fn lemma_rank_cmp_total(a: Seq<SegV>, b: Seq<SegV>)
    ensures
        rank_cmp_s(a, b) == -1 || rank_cmp_s(a, b) == 0 || rank_cmp_s(a, b) == 1,
        rank_cmp_s(a, b) == -1 <==> rank_cmp_s(b, a) == 1,
        rank_cmp_s(a, b) == 0 <==> rank_cmp_s(b, a) == 0,
    decreases a.len(),
{
    if a.len() > 0 && b.len() > 0 && seg_rank(a[0]) == seg_rank(b[0]) {
        lemma_rank_cmp_total(a.drop_first(), b.drop_first());
    }
}

/// Route registrations collected before serving starts.
pub struct Router {
    pub routes: Vec<Route>,
    /// Upper bound, in bytes, for the static file cache built from this router.
    pub static_file_cache_size: usize,
}

impl View for Router {
    type V = Seq<RouteV>;

    open spec fn view(&self) -> Seq<RouteV> {
        self.routes@.map_values(|r: Route| r@)
    }
}

impl Router {
    pub open spec fn wf(&self) -> bool {
        forall|i: int| 0 <= i < self@.len() ==> route_wf(#[trigger] self@[i])
    }

    /// Creates a new empty router.
    pub fn new() -> (r: Router)
        ensures
            r@.len() == 0,
            r.wf(),
            r.static_file_cache_size == 50_000_000usize,
    {
        Router { routes: Vec::new(), static_file_cache_size: 50_000_000 }
    }

    /// Configures the static file cache size in bytes; the default is
    /// 50,000,000 bytes.
    pub fn set_static_file_cache_size(&mut self, size: usize)
        ensures
            final(self)@ == old(self)@,
            final(self).static_file_cache_size == size,
            old(self).wf() ==> final(self).wf(),
    {
        self.static_file_cache_size = size;
    }

    fn add_full(
        &mut self,
        method: Method,
        path: String,
        threading: Threading,
        static_file: Option<StaticFileConfig>,
    ) -> (r: Result<usize, HttpError>)
        ensures
            match r {
                Ok(idx) => {
                    &&& idx == old(self)@.len()
                    &&& final(self)@ == old(self)@ + seq![
                        RouteV {
                            path: str_bytes(path),
                            method,
                            threading,
                            segs: pattern_of(str_bytes(path)),
                            static_file: match static_file {
                                Some(c) => Some(c@),
                                None => None,
                            },
                        },
                    ]
                    &&& pattern_valid(pattern_of(str_bytes(path)))
                },
                Err(_) => {
                    &&& final(self)@ == old(self)@
                    &&& !pattern_valid(pattern_of(str_bytes(path)))
                },
            },
            old(self).wf() && r is Ok ==> final(self).wf(),
            final(self).static_file_cache_size == old(self).static_file_cache_size,
    {
        let segments = match parse_pattern(path.as_str()) {
            Ok(s) => s,
            Err(e) => {
                return Err(e);
            },
        };
        let route = Route { path, method, threading, segments, static_file };
        self.routes.push(route);
        proof {
            assert(self@ =~= old(self)@ + seq![self.routes@.last()@]);
        }
        Ok(self.routes.len() - 1)
    }

    /// Adds a new route; fails when the pattern puts a wildcard anywhere but
    /// last.  Returns the route's index.
    pub fn add(&mut self, method: Method, path: &str) -> (r: Result<usize, HttpError>)
        ensures
            match r {
                Ok(idx) => {
                    &&& idx == old(self)@.len()
                    &&& final(self)@ == old(self)@ + seq![
                        RouteV {
                            path: path.spec_bytes(),
                            method,
                            threading: default_threading(method),
                            segs: pattern_of(path.spec_bytes()),
                            static_file: None,
                        },
                    ]
                    &&& pattern_valid(pattern_of(path.spec_bytes()))
                },
                Err(_) => {
                    &&& final(self)@ == old(self)@
                    &&& !pattern_valid(pattern_of(path.spec_bytes()))
                },
            },
            old(self).wf() && r is Ok ==> final(self).wf(),
            final(self).static_file_cache_size == old(self).static_file_cache_size,
    {
        let threading = match method {
            Method::GET => Threading::SAME,
            Method::OPTIONS => Threading::SAME,
            _ => Threading::SEPERATE,
        };
        self.add_full(method, String::from_str(path), threading, None)
    }
}

} // verus!

verus! {

// ---------------------------------------------------------------------------
// Registration API and the read-only internal router
// ---------------------------------------------------------------------------

/// What a registration call did: on success the route stands appended, on
/// failure (a wildcard not in last position) nothing changed.
pub open spec fn added_route(
    old_routes: Seq<RouteV>,
    new_routes: Seq<RouteV>,
    m: Method,
    threading: Threading,
    path: Seq<u8>,
    sf: Option<StaticCfgV>,
    r: Result<usize, HttpError>,
) -> bool {
    match r {
        Ok(idx) => {
            &&& idx == old_routes.len()
            &&& new_routes == old_routes + seq![
                RouteV { path, method: m, threading, segs: pattern_of(path), static_file: sf },
            ]
            &&& pattern_valid(pattern_of(path))
        },
        Err(_) => {
            &&& new_routes == old_routes
            &&& !pattern_valid(pattern_of(path))
        },
    }
}

impl Router {
    /// Registers a handler for `GET` requests.
    pub fn get(&mut self, path: &str) -> (r: Result<usize, HttpError>)
        ensures
            added_route(
                old(self)@,
                final(self)@,
                Method::GET,
                Threading::SAME,
                path.spec_bytes(),
                None,
                r,
            ),
            old(self).wf() ==> final(self).wf(),
            final(self).static_file_cache_size == old(self).static_file_cache_size,
    {
        self.add(Method::GET, path)
    }

    /// Registers a handler for `PUT` requests.
    pub fn put(&mut self, path: &str) -> (r: Result<usize, HttpError>)
        ensures
            added_route(
                old(self)@,
                final(self)@,
                Method::PUT,
                Threading::SEPERATE,
                path.spec_bytes(),
                None,
                r,
            ),
            old(self).wf() ==> final(self).wf(),
            final(self).static_file_cache_size == old(self).static_file_cache_size,
    {
        self.add(Method::PUT, path)
    }

    /// Registers a handler for `POST` requests.
    pub fn post(&mut self, path: &str) -> (r: Result<usize, HttpError>)
        ensures
            added_route(
                old(self)@,
                final(self)@,
                Method::POST,
                Threading::SEPERATE,
                path.spec_bytes(),
                None,
                r,
            ),
            old(self).wf() ==> final(self).wf(),
            final(self).static_file_cache_size == old(self).static_file_cache_size,
    {
        self.add(Method::POST, path)
    }

    /// Registers a handler for `DELETE` requests.
    pub fn delete(&mut self, path: &str) -> (r: Result<usize, HttpError>)
        ensures
            added_route(
                old(self)@,
                final(self)@,
                Method::DELETE,
                Threading::SEPERATE,
                path.spec_bytes(),
                None,
                r,
            ),
            old(self).wf() ==> final(self).wf(),
            final(self).static_file_cache_size == old(self).static_file_cache_size,
    {
        self.add(Method::DELETE, path)
    }

    /// Registers a handler for `OPTIONS` requests.
    pub fn options(&mut self, path: &str) -> (r: Result<usize, HttpError>)
        ensures
            added_route(
                old(self)@,
                final(self)@,
                Method::OPTIONS,
                Threading::SAME,
                path.spec_bytes(),
                None,
                r,
            ),
            old(self).wf() ==> final(self).wf(),
            final(self).static_file_cache_size == old(self).static_file_cache_size,
    {
        self.add(Method::OPTIONS, path)
    }

    /// Registers a handler for `HEAD` requests.
    pub fn head(&mut self, path: &str) -> (r: Result<usize, HttpError>)
        ensures
            added_route(
                old(self)@,
                final(self)@,
                Method::HEAD,
                Threading::SEPERATE,
                path.spec_bytes(),
                None,
                r,
            ),
            old(self).wf() ==> final(self).wf(),
            final(self).static_file_cache_size == old(self).static_file_cache_size,
    {
        self.add(Method::HEAD, path)
    }

    /// Registers a handler for `PATCH` requests.
    pub fn patch(&mut self, path: &str) -> (r: Result<usize, HttpError>)
        ensures
            added_route(
                old(self)@,
                final(self)@,
                Method::PATCH,
                Threading::SEPERATE,
                path.spec_bytes(),
                None,
                r,
            ),
            old(self).wf() ==> final(self).wf(),
            final(self).static_file_cache_size == old(self).static_file_cache_size,
    {
        self.add(Method::PATCH, path)
    }
}

/// The pattern a static-file registration compiles to: for a directory the
/// URL path gets a trailing `*file` wildcard segment.
pub open spec fn static_pattern(url: Seq<u8>, is_dir: bool) -> Seq<u8> {
    if is_dir {
        if url.len() > 0 && url.last() == 47 {
            url + "*file".spec_bytes()
        } else {
            url + "/*file".spec_bytes()
        }
    } else {
        url
    }
}

impl Router {
    /// Registers a static file path for file serving, never cached; reads go
    /// to the file system on every request.  `file_is_dir` says whether the
    /// filesystem path is a directory.
    pub fn static_path(&mut self, url_path: &str, file_path: &str, file_is_dir: bool) -> (r:
        Result<usize, HttpError>)
        ensures
            added_route(
                old(self)@,
                final(self)@,
                Method::GET,
                Threading::SEPERATE,
                static_pattern(url_path.spec_bytes(), file_is_dir),
                Some(
                    StaticCfgV {
                        file_path: file_path.spec_bytes(),
                        change_detection: ChangeDetection::NoCache,
                        eviction_policy: EvictionPolicy::Never,
                    },
                ),
                r,
            ),
            old(self).wf() ==> final(self).wf(),
            final(self).static_file_cache_size == old(self).static_file_cache_size,
    {
        self.static_path_cached(
            url_path,
            file_path,
            file_is_dir,
            ChangeDetection::NoCache,
            EvictionPolicy::Never,
        )
    }

    /// Registers a static file path for file serving with the given change
    /// detection and eviction policy.  `file_is_dir` says whether the
    /// filesystem path is a directory; a directory pattern gets a trailing
    /// `*file` wildcard so sub-paths resolve to the one route.
    pub fn static_path_cached(
        &mut self,
        url_path: &str,
        file_path: &str,
        file_is_dir: bool,
        change_detection: ChangeDetection,
        eviction: EvictionPolicy,
    ) -> (r: Result<usize, HttpError>)
        ensures
            added_route(
                old(self)@,
                final(self)@,
                Method::GET,
                Threading::SEPERATE,
                static_pattern(url_path.spec_bytes(), file_is_dir),
                Some(
                    StaticCfgV {
                        file_path: file_path.spec_bytes(),
                        change_detection,
                        eviction_policy: eviction,
                    },
                ),
                r,
            ),
            old(self).wf() ==> final(self).wf(),
            final(self).static_file_cache_size == old(self).static_file_cache_size,
    {
        let mut total = url_path.as_bytes_vec();
        if file_is_dir {
            let ends_with_slash = total.len() > 0 && total[total.len() - 1] == 47;
            if ends_with_slash {
                total.extend_from_slice("*file".as_bytes());
            } else {
                total.extend_from_slice("/*file".as_bytes());
            }
            proof {
                assert(total@ =~= static_pattern(url_path.spec_bytes(), file_is_dir));
            }
        }
        proof {
            vstd::utf8::encode_utf8_valid_utf8(url_path@);
            if file_is_dir {
                vstd::utf8::encode_utf8_valid_utf8("*file"@);
                vstd::utf8::encode_utf8_valid_utf8("/*file"@);
                broadcast use vstd::utf8::valid_utf8_concat;

                assert(valid_utf8(total@));
            }
        }
        let pattern = strutil::bytes_to_string(total);
        let cfg = StaticFileConfig {
            file_path: String::from_str(file_path),
            change_detection,
            eviction_policy: eviction,
        };
        self.add_full(Method::GET, pattern, Threading::SEPERATE, Some(cfg))
    }
}

/// The read-only router that serves lookups once registration is done.
pub struct InternalRouter {
    pub routes: Vec<Route>,
}

impl View for InternalRouter {
    type V = Seq<RouteV>;

    open spec fn view(&self) -> Seq<RouteV> {
        self.routes@.map_values(|r: Route| r@)
    }
}

impl InternalRouter {
    pub open spec fn wf(&self) -> bool {
        forall|i: int| 0 <= i < self@.len() ==> route_wf(#[trigger] self@[i])
    }

    /// Freezes a router's registrations.
    pub fn new(router: Router) -> (r: InternalRouter)
        ensures
            r@ == router@,
            router.wf() ==> r.wf(),
    {
        let ghost rv = router@;
        let r = InternalRouter { routes: router.routes };
        proof {
            assert(r@ =~= rv);
        }
        r
    }

    /// The number of routes.
    pub fn route_count(&self) -> (r: usize)
        ensures
            r == self@.len(),
    {
        self.routes.len()
    }

    /// The route at an index.
    pub fn get_route(&self, i: usize) -> (r: &Route)
        requires
            i < self@.len(),
        ensures
            r@ == self@[i as int],
    {
        &self.routes[i]
    }

    /// Resolves a method and path to the registered route that matches with
    /// the highest precedence (earliest registration breaking ties), with
    /// the bindings the match produced.
    pub fn resolve(&self, method: Method, path: &str) -> (r: Option<(usize, Params)>)
        requires
            self.wf(),
        ensures
            ({
                let parts = path_parts(path.spec_bytes());
                match r {
                    Some((idx, params)) => {
                        &&& spec_resolve(self@, method, parts) == Some(idx as int)
                        &&& params@ == spec_match(self@[idx as int].segs, parts).unwrap()
                    },
                    None => spec_resolve(self@, method, parts) is None,
                }
            }),
    {
        proof {
            vstd::utf8::encode_utf8_valid_utf8(path@);
        }
        let parts = split_path(path.as_bytes());
        let ghost partsv = seqs_of(parts@);
        let n = self.routes.len();
        let mut best: Option<(usize, Params)> = None;
        let mut j: usize = 0;
        while j < n
            invariant
                n == self.routes@.len(),
                j <= n,
                self.wf(),
                partsv == seqs_of(parts@),
                partsv == path_parts(path.spec_bytes()),
                forall|k: int| 0 <= k < parts@.len() ==> valid_utf8(#[trigger] seqs_of(parts@)[k]),
                match best {
                    Some((bi, _)) => bi < j,
                    None => true,
                },
                match best {
                    Some((bi, bp)) => spec_resolve_upto(self@, method, partsv, j as int) == Some(
                        bi as int,
                    ) && bp@ == spec_match(self@[bi as int].segs, partsv).unwrap(),
                    None => spec_resolve_upto(self@, method, partsv, j as int) is None,
                },
            decreases n - j,
        {
            let route = &self.routes[j];
            proof {
                assert(self@[j as int] == route@);
                assert(route_wf(self@[j as int]));
            }
            if route.method == method {
                proof {
                    assert forall|k: int| 0 <= k < route.segments@.len() implies valid_utf8(
                        seg_payload(#[trigger] route.segments@[k]@),
                    ) by {
                        assert(route@.segs[k] == route.segments@[k]@);
                    }
                }
                let m = match_segments(&route.segments, &parts);
                match m {
                    Some(params) => {
                        proof {
                            assert(route_matches(self@[j as int], method, partsv));
                        }
                        let take_it = match &best {
                            None => true,
                            Some((bi, _)) => rank_cmp(
                                &route.segments,
                                &self.routes[*bi].segments,
                            ) == -1,
                        };
                        if take_it {
                            best = Some((j, params));
                        }
                    },
                    None => {
                        proof {
                            assert(!route_matches(self@[j as int], method, partsv));
                        }
                    },
                }
            } else {
                proof {
                    assert(!route_matches(self@[j as int], method, partsv));
                }
            }
            j += 1;
        }
        best
    }
}

} // verus!

verus! {

// ---------------------------------------------------------------------------
// Laws of the matcher
// ---------------------------------------------------------------------------

/// A pattern of literal segments matches exactly the paths whose segment
/// sequence equals the literals, and binds nothing.
pub proof fn lemma_literal_match(segs: Seq<SegV>, parts: Seq<Seq<u8>>)
    requires
        forall|i: int| 0 <= i < segs.len() ==> segs[i] is Literal,
    ensures
        spec_match(segs, parts) is Some <==> parts == segs.map_values(|s: SegV| seg_payload(s)),
        spec_match(segs, parts) is Some ==> spec_match(segs, parts).unwrap() == Seq::<
            (Seq<u8>, Seq<u8>),
        >::empty(),
    decreases segs.len(),
{
    let lits = segs.map_values(|s: SegV| seg_payload(s));
    if segs.len() == 0 {
        if parts.len() == 0 {
            assert(parts =~= lits);
        } else {
            assert(parts != lits);
        }
    } else {
        assert(segs[0] is Literal);
        lemma_literal_match(segs.drop_first(), parts.drop_first());
        assert(segs.drop_first().map_values(|s: SegV| seg_payload(s)) =~= lits.drop_first());
        assert(spec_match(segs, parts) is Some ==> parts.len() > 0 && parts[0] == seg_payload(
            segs[0],
        ) && spec_match(segs.drop_first(), parts.drop_first()) is Some);
        if spec_match(segs, parts) is Some {
            assert(parts[0] == lits[0]);
            assert(parts.drop_first() == lits.drop_first());
            assert forall|i: int| 0 <= i < parts.len() implies parts[i] == lits[i] by {
                if i > 0 {
                    assert(parts[i] == parts.drop_first()[i - 1]);
                    assert(lits[i] == lits.drop_first()[i - 1]);
                }
            }
            assert(parts =~= lits);
        } else if parts == lits {
            assert(parts.len() > 0 && parts[0] == seg_payload(segs[0]));
            assert(parts.drop_first() =~= lits.drop_first());
            assert(false);
        }
    }
}

/// Law: a literal-only pattern matches a path exactly when the path equals
/// the pattern, and such a match binds nothing.
pub proof fn lemma_literal_only_pattern(pattern: Seq<u8>, path: Seq<u8>)
    requires
        forall|i: int| 0 <= i < pattern_of(pattern).len() ==> #[trigger] pattern_of(
            pattern,
        )[i] is Literal,
    ensures
        spec_match(pattern_of(pattern), path_parts(path)) is Some <==> path == pattern,
        spec_match(pattern_of(pattern), path_parts(path)) is Some ==> spec_match(
            pattern_of(pattern),
            path_parts(path),
        ).unwrap() == Seq::<(Seq<u8>, Seq<u8>)>::empty(),
{
    strutil::lemma_join_split(path, 47);
    strutil::lemma_join_split(pattern, 47);
    lemma_literal_match(pattern_of(pattern), path_parts(path));
    assert(pattern_of(pattern).map_values(|s: SegV| seg_payload(s)) =~= path_parts(pattern)) by {
        assert forall|i: int| 0 <= i < pattern_of(pattern).len() implies pattern_of(
            pattern,
        ).map_values(|s: SegV| seg_payload(s))[i] == path_parts(pattern)[i] by {
            assert(pattern_of(pattern)[i] == classify(path_parts(pattern)[i]));
        }
    }
}

} // verus!
