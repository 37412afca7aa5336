//! The incremental HTTP/1.1 codec: a streaming request parser with size
//! limits, and the response encoder.
//!
//! The request grammar is: a request line `METHOD SP TARGET SP HTTP/1.X
//! CRLF`, then header lines `name: value CRLF`, then an empty line.  The
//! method and header names are tokens, the target is printable ASCII, and a
//! header value may hold any byte but CR, LF and DEL; leading and trailing
//! blanks around a value are dropped.

use vstd::prelude::*;
use vstd::string::{StrSliceExecFns, StringSliceAdditionalSpecFns};
use crate::request::Version;

verus! {

// ---------------------------------------------------------------------------
// Byte classes
// ---------------------------------------------------------------------------

/// A token byte: letters, digits, and the RFC 7230 token specials.
pub open spec fn is_token_byte(b: u8) -> bool {
    (48 <= b <= 57) || (65 <= b <= 90) || (97 <= b <= 122) || b == 33 || b == 35 || b == 36 || b
        == 37 || b == 38 || b == 39 || b == 42 || b == 43 || b == 45 || b == 46 || b == 94 || b
        == 95 || b == 96 || b == 124 || b == 126
}

/// A request-target byte: printable ASCII.
pub open spec fn is_uri_byte(b: u8) -> bool {
    33 <= b <= 126
}

/// A blank byte inside a header line: space or horizontal tab.
pub open spec fn is_blank_byte(b: u8) -> bool {
    b == 32 || b == 9
}

/// A byte that may stand in a header value.
pub open spec fn is_value_byte(b: u8) -> bool {
    b == 9 || (32 <= b && b != 127)
}

/// First position at or after `i` whose byte fails `pred`, or the end.
pub open spec fn scan(s: Seq<u8>, i: int, pred: spec_fn(u8) -> bool) -> int
    decreases s.len() - i,
    when 0 <= i <= s.len()
{
    if i >= s.len() {
        s.len() as int
    } else if !pred(s[i]) {
        i
    } else {
        scan(s, i + 1, pred)
    }
}

pub proof fn lemma_scan_bounds(s: Seq<u8>, i: int, pred: spec_fn(u8) -> bool)
    requires
        0 <= i <= s.len(),
    ensures
        i <= scan(s, i, pred) <= s.len(),
        forall|j: int| i <= j < scan(s, i, pred) ==> pred(s[j]),
        scan(s, i, pred) < s.len() ==> !pred(s[scan(s, i, pred)]),
    decreases s.len() - i,
{
    if i < s.len() && pred(s[i]) {
        lemma_scan_bounds(s, i + 1, pred);
    }
}

/// The position where a scan stops, characterized without recursion.
pub proof fn lemma_scan_is(s: Seq<u8>, i: int, pred: spec_fn(u8) -> bool, j: int)
    requires
        0 <= i <= j <= s.len(),
        forall|k: int| i <= k < j ==> pred(s[k]),
        j < s.len() ==> !pred(s[j]),
    ensures
        scan(s, i, pred) == j,
    decreases j - i,
{
    if i < j {
        lemma_scan_is(s, i + 1, pred, j);
    }
}

/// Scanning a prefix stops where the full scan does, or at the cut.
pub proof fn lemma_scan_take(s: Seq<u8>, i: int, pred: spec_fn(u8) -> bool, n: int)
    requires
        0 <= i <= n <= s.len(),
    ensures
        scan(s.take(n), i, pred) == if scan(s, i, pred) <= n {
            scan(s, i, pred)
        } else {
            n
        },
    decreases s.len() - i,
{
    lemma_scan_bounds(s, i, pred);
    let j = scan(s, i, pred);
    if j <= n {
        lemma_scan_is(s.take(n), i, pred, j);
    } else {
        lemma_scan_is(s.take(n), i, pred, n);
    }
}

// ---------------------------------------------------------------------------
// The parsed request head
// ---------------------------------------------------------------------------

/// A header value with surrounding blanks dropped from its end.
pub open spec fn rtrim(v: Seq<u8>) -> Seq<u8>
    decreases v.len(),
{
    if v.len() > 0 && is_blank_byte(v.last()) {
        rtrim(v.drop_last())
    } else {
        v
    }
}

/// What parsing a header block yields.
pub enum HdrStep {
    Bad,
    Incomplete,
    Thru(Seq<(Seq<u8>, Seq<u8>)>, int),
}

/// Parses header lines from `i` until the blank line, collecting
/// (name, trimmed value) pairs onto `acc`.
pub open spec fn parse_header_block(s: Seq<u8>, i: int, acc: Seq<(Seq<u8>, Seq<u8>)>) -> HdrStep
    decreases s.len() - i,
    when 0 <= i <= s.len()
{
    if i >= s.len() {
        HdrStep::Incomplete
    } else if s[i] == 13 {
        if i + 1 >= s.len() {
            HdrStep::Incomplete
        } else if s[i + 1] == 10 {
            HdrStep::Thru(acc, i + 2)
        } else {
            HdrStep::Bad
        }
    } else {
        let ne = scan(s, i, |b: u8| is_token_byte(b));
        if ne >= s.len() {
            HdrStep::Incomplete
        } else if ne == i || s[ne] != 58 {
            HdrStep::Bad
        } else {
            let vs = scan(s, ne + 1, |b: u8| is_blank_byte(b));
            if vs >= s.len() {
                HdrStep::Incomplete
            } else {
                let ve = scan(s, vs, |b: u8| is_value_byte(b));
                if ve >= s.len() {
                    HdrStep::Incomplete
                } else if s[ve] != 13 {
                    HdrStep::Bad
                } else if ve + 1 >= s.len() {
                    HdrStep::Incomplete
                } else if s[ve + 1] != 10 {
                    HdrStep::Bad
                } else if i < ve + 2 <= s.len() {
                    parse_header_block(
                        s,
                        ve + 2,
                        acc.push((s.subrange(i, ne), rtrim(s.subrange(vs, ve)))),
                    )
                } else {
                    HdrStep::Bad
                }
            }
        }
    }
}

/// The bytes of the fixed part of the version field.
pub open spec fn version_prefix() -> Seq<u8> {
    seq![72u8, 84u8, 84u8, 80u8, 47u8, 49u8, 46u8]
}

/// The parsed request head: everything before the body.
pub struct HeadV {
    pub method: Seq<u8>,
    pub uri: Seq<u8>,
    pub version: Version,
    pub headers: Seq<(Seq<u8>, Seq<u8>)>,
    pub amt: int,
}

/// What one parse attempt yields.
pub enum ParseOut {
    Bad,
    Incomplete,
    Done(HeadV),
}

/// Parses a request head from the start of the buffer.
pub open spec fn spec_parse(s: Seq<u8>) -> ParseOut {
    let me_ = scan(s, 0, |b: u8| is_token_byte(b));
    if me_ >= s.len() {
        ParseOut::Incomplete
    } else if me_ == 0 || s[me_] != 32 {
        ParseOut::Bad
    } else {
        let us = me_ + 1;
        let ue = scan(s, us, |b: u8| is_uri_byte(b));
        if ue >= s.len() {
            ParseOut::Incomplete
        } else if ue == us || s[ue] != 32 {
            ParseOut::Bad
        } else {
            spec_parse_version(s, me_, ue)
        }
    }
}

/// Parses the version field and everything after it; `me` and `ue` are where
/// the method and the request target end.
pub open spec fn spec_parse_version(s: Seq<u8>, me_: int, ue: int) -> ParseOut {
    let vp = ue + 1;
    if vp + 7 > s.len() {
        if exists|j: int| 0 <= j < 7 && vp + j < s.len() && s[vp + j] != version_prefix()[j] {
            ParseOut::Bad
        } else {
            ParseOut::Incomplete
        }
    } else if exists|j: int| 0 <= j < 7 && s[vp + j] != version_prefix()[j] {
        ParseOut::Bad
    } else {
        let vd = vp + 7;
        if vd >= s.len() {
            ParseOut::Incomplete
        } else if s[vd] != 48 && s[vd] != 49 {
            ParseOut::Bad
        } else if vd + 1 >= s.len() {
            ParseOut::Incomplete
        } else if s[vd + 1] != 13 {
            ParseOut::Bad
        } else if vd + 2 >= s.len() {
            ParseOut::Incomplete
        } else if s[vd + 2] != 10 {
            ParseOut::Bad
        } else {
            match parse_header_block(s, vd + 3, Seq::empty()) {
                HdrStep::Bad => ParseOut::Bad,
                HdrStep::Incomplete => ParseOut::Incomplete,
                HdrStep::Thru(headers, amt) => ParseOut::Done(
                    HeadV {
                        method: s.subrange(0, me_),
                        uri: s.subrange(me_ + 1, ue),
                        version: if s[vd] == 48 {
                            Version::Http10
                        } else {
                            Version::Http11
                        },
                        headers,
                        amt,
                    },
                ),
            }
        }
    }
}

} // verus!

verus! {

// ---------------------------------------------------------------------------
// The executable parser
// ---------------------------------------------------------------------------

fn token_byte(b: u8) -> (r: bool)
    ensures
        r == is_token_byte(b),
{
    (48 <= b && b <= 57) || (65 <= b && b <= 90) || (97 <= b && b <= 122) || b == 33 || b == 35
        || b == 36 || b == 37 || b == 38 || b == 39 || b == 42 || b == 43 || b == 45 || b == 46
        || b == 94 || b == 95 || b == 96 || b == 124 || b == 126
}

fn scan_token(s: &[u8], i: usize) -> (r: usize)
    requires
        i <= s@.len(),
    ensures
        r == scan(s@, i as int, |b: u8| is_token_byte(b)),
        i <= r <= s@.len(),
{
    let mut j = i;
    while j < s.len() && token_byte(s[j])
        invariant
            i <= j <= s@.len(),
            forall|k: int| i <= k < j ==> is_token_byte(s@[k]),
        decreases s@.len() - j,
    {
        j += 1;
    }
    proof {
        lemma_scan_is(s@, i as int, |b: u8| is_token_byte(b), j as int);
    }
    j
}

fn scan_uri(s: &[u8], i: usize) -> (r: usize)
    requires
        i <= s@.len(),
    ensures
        r == scan(s@, i as int, |b: u8| is_uri_byte(b)),
        i <= r <= s@.len(),
{
    let mut j = i;
    while j < s.len() && 33 <= s[j] && s[j] <= 126
        invariant
            i <= j <= s@.len(),
            forall|k: int| i <= k < j ==> is_uri_byte(s@[k]),
        decreases s@.len() - j,
    {
        j += 1;
    }
    proof {
        lemma_scan_is(s@, i as int, |b: u8| is_uri_byte(b), j as int);
    }
    j
}

fn scan_blank(s: &[u8], i: usize) -> (r: usize)
    requires
        i <= s@.len(),
    ensures
        r == scan(s@, i as int, |b: u8| is_blank_byte(b)),
        i <= r <= s@.len(),
{
    let mut j = i;
    while j < s.len() && (s[j] == 32 || s[j] == 9)
        invariant
            i <= j <= s@.len(),
            forall|k: int| i <= k < j ==> is_blank_byte(s@[k]),
        decreases s@.len() - j,
    {
        j += 1;
    }
    proof {
        lemma_scan_is(s@, i as int, |b: u8| is_blank_byte(b), j as int);
    }
    j
}

fn scan_value(s: &[u8], i: usize) -> (r: usize)
    requires
        i <= s@.len(),
    ensures
        r == scan(s@, i as int, |b: u8| is_value_byte(b)),
        i <= r <= s@.len(),
{
    let mut j = i;
    while j < s.len() && (s[j] == 9 || (32 <= s[j] && s[j] != 127))
        invariant
            i <= j <= s@.len(),
            forall|k: int| i <= k < j ==> is_value_byte(s@[k]),
        decreases s@.len() - j,
    {
        j += 1;
    }
    proof {
        lemma_scan_is(s@, i as int, |b: u8| is_value_byte(b), j as int);
    }
    j
}

/// `rtrim` keeps exactly the bytes before the trailing run of blanks.
pub proof fn lemma_rtrim_is(v: Seq<u8>, k: int)
    requires
        0 <= k <= v.len(),
        forall|j: int| k <= j < v.len() ==> is_blank_byte(v[j]),
        k > 0 ==> !is_blank_byte(v[k - 1]),
    ensures
        rtrim(v) == v.take(k),
    decreases v.len(),
{
    if k == v.len() {
        if v.len() == 0 {
            assert(rtrim(v) =~= v.take(k));
        } else {
            assert(rtrim(v) =~= v.take(k));
        }
    } else {
        assert(is_blank_byte(v.last()));
        assert(v.drop_last() =~= v.take(v.len() - 1));
        assert forall|j: int| k <= j < v.drop_last().len() implies is_blank_byte(
            v.drop_last()[j],
        ) by {
            assert(v.drop_last()[j] == v[j]);
        }
        lemma_rtrim_is(v.drop_last(), k);
        assert(v.drop_last().take(k) =~= v.take(k));
    }
}

/// The byte at one position of the fixed version text.
fn version_prefix_byte(j: usize) -> (b: u8)
    requires
        j < 7,
    ensures
        b == version_prefix()[j as int],
{
    if j == 0 {
        72
    } else if j == 1 {
        84
    } else if j == 2 {
        84
    } else if j == 3 {
        80
    } else if j == 4 {
        47
    } else if j == 5 {
        49
    } else {
        46
    }
}

/// Compares the buffer at `vp` with the fixed version text: 1 when it all
/// stands there, 0 when the buffer ends first without a mismatch, -1 on a
/// mismatch.
fn check_version_prefix(s: &[u8], vp: usize) -> (r: i32)
    requires
        vp <= s@.len(),
    ensures
        r == 1 ==> vp + 7 <= s@.len() && (forall|j: int|
            0 <= j < 7 ==> s@[vp + j] == version_prefix()[j]),
        r == 0 ==> vp + 7 > s@.len() && !(exists|j: int|
            0 <= j < 7 && vp + j < s@.len() && s@[vp + j] != version_prefix()[j]),
        r == -1 ==> exists|j: int|
            0 <= j < 7 && vp + j < s@.len() && s@[vp + j] != version_prefix()[j],
        r == 1 || r == 0 || r == -1,
{
    let mut j: usize = 0;
    while j < 7
        invariant
            j <= 7,
            vp <= s@.len(),
            forall|k: int|
                0 <= k < j ==> vp + k < s@.len() && s@[vp + k] == #[trigger] version_prefix()[k],
        decreases 7 - j,
    {
        if s.len() - vp <= j {
            proof {
                assert forall|k: int|
                    0 <= k < 7 && vp + k < s@.len() implies s@[vp + k] == #[trigger] version_prefix()[k] by {
                    assert(k < j);
                }
            }
            return 0;
        }
        let expected = version_prefix_byte(j);
        if s[vp + j] != expected {
            proof {
                let jj = j as int;
                assert(0 <= jj < 7 && vp + jj < s@.len() && s@[vp + jj] != version_prefix()[jj]);
            }
            return -1;
        }
        j += 1;
    }
    proof {
        assert(version_prefix().len() == 7);
        assert(version_prefix()[6] == 46);
        assert(vp + 6 < s@.len() && s@[vp + 6] == version_prefix()[6]);
    }
    1
}

/// The parsed request head, as plain vectors.
pub struct ParsedHead {
    pub method: Vec<u8>,
    pub uri: Vec<u8>,
    pub version: Version,
    pub headers: Vec<(Vec<u8>, Vec<u8>)>,
    pub amt: usize,
}

/// What one executable parse attempt yields.
pub enum Parsed {
    Bad,
    Incomplete,
    Done(ParsedHead),
}

/// The head carries exactly the parsed values.
pub open spec fn head_matches(h: ParsedHead, v: HeadV) -> bool {
    &&& h.method@ == v.method
    &&& h.uri@ == v.uri
    &&& h.version == v.version
    &&& h.headers@.map_values(|p: (Vec<u8>, Vec<u8>)| (p.0@, p.1@)) == v.headers
    &&& h.amt == v.amt
}

/// Parses a request head from the start of the buffer.
pub fn parse_request(s: &[u8]) -> (r: Parsed)
    ensures
        match r {
            Parsed::Bad => spec_parse(s@) is Bad,
            Parsed::Incomplete => spec_parse(s@) is Incomplete,
            Parsed::Done(h) => spec_parse(s@) is Done && head_matches(h, spec_parse(s@)->Done_0),
        },
{
    let n = s.len();
    let me_ = scan_token(s, 0);
    if me_ == n {
        return Parsed::Incomplete;
    }
    if me_ == 0 || s[me_] != 32 {
        return Parsed::Bad;
    }
    let us = me_ + 1;
    let ue = scan_uri(s, us);
    if ue == n {
        return Parsed::Incomplete;
    }
    if ue == us || s[ue] != 32 {
        return Parsed::Bad;
    }
    let vp = ue + 1;
    let pre = check_version_prefix(s, vp);
    if pre < 0 {
        return Parsed::Bad;
    }
    if pre == 0 {
        return Parsed::Incomplete;
    }
    let vd = vp + 7;
    if vd == n {
        return Parsed::Incomplete;
    }
    let vbyte = s[vd];
    if vbyte != 48 && vbyte != 49 {
        return Parsed::Bad;
    }
    if vd + 1 == n {
        return Parsed::Incomplete;
    }
    if s[vd + 1] != 13 {
        return Parsed::Bad;
    }
    if vd + 2 == n {
        return Parsed::Incomplete;
    }
    if s[vd + 2] != 10 {
        return Parsed::Bad;
    }
    let hstart = vd + 3;
    let mut headers: Vec<(Vec<u8>, Vec<u8>)> = Vec::new();
    let mut i = hstart;
    proof {
        assert(headers@.map_values(|p: (Vec<u8>, Vec<u8>)| (p.0@, p.1@)) =~= Seq::<
            (Seq<u8>, Seq<u8>),
        >::empty());
    }
    loop
        invariant
            n == s@.len(),
            hstart <= i <= n,
            3 <= hstart <= n,
            parse_header_block(s@, hstart as int, Seq::empty()) == parse_header_block(
                s@,
                i as int,
                headers@.map_values(|p: (Vec<u8>, Vec<u8>)| (p.0@, p.1@)),
            ),
            spec_parse(s@) == (match parse_header_block(s@, hstart as int, Seq::empty()) {
                HdrStep::Bad => ParseOut::Bad,
                HdrStep::Incomplete => ParseOut::Incomplete,
                HdrStep::Thru(hs, amt) => ParseOut::Done(
                    HeadV {
                        method: s@.subrange(0, me_ as int),
                        uri: s@.subrange(me_ + 1, ue as int),
                        version: if s@[ue + 8] == 48 {
                            Version::Http10
                        } else {
                            Version::Http11
                        },
                        headers: hs,
                        amt,
                    },
                ),
            }),
            me_ < ue < n,
            ue + 8 < n,
            vbyte == s@[ue + 8],
            vbyte == 48 || vbyte == 49,
            us == me_ + 1,
            ue == scan(s@, us as int, |b: u8| is_uri_byte(b)),
            me_ == scan(s@, 0, |b: u8| is_token_byte(b)),
        decreases n - i,
    {
        let ghost acc = headers@.map_values(|p: (Vec<u8>, Vec<u8>)| (p.0@, p.1@));
        if i == n {
            return Parsed::Incomplete;
        }
        if s[i] == 13 {
            if i + 1 == n {
                return Parsed::Incomplete;
            }
            if s[i + 1] != 10 {
                return Parsed::Bad;
            }
            let head = ParsedHead {
                method: vstd::slice::slice_to_vec(vstd::slice::slice_subrange(s, 0, me_)),
                uri: vstd::slice::slice_to_vec(vstd::slice::slice_subrange(s, us, ue)),
                version: if vbyte == 48 {
                    Version::Http10
                } else {
                    Version::Http11
                },
                headers,
                amt: i + 2,
            };
            return Parsed::Done(head);
        }
        let ne = scan_token(s, i);
        if ne == n {
            return Parsed::Incomplete;
        }
        if ne == i || s[ne] != 58 {
            return Parsed::Bad;
        }
        let vs = scan_blank(s, ne + 1);
        if vs == n {
            return Parsed::Incomplete;
        }
        let ve = scan_value(s, vs);
        if ve == n {
            return Parsed::Incomplete;
        }
        if s[ve] != 13 {
            return Parsed::Bad;
        }
        if ve + 1 == n {
            return Parsed::Incomplete;
        }
        if s[ve + 1] != 10 {
            return Parsed::Bad;
        }
        // trim trailing blanks from the value
        let mut vend = ve;
        while vend > vs && (s[vend - 1] == 32 || s[vend - 1] == 9)
            invariant
                vs <= vend <= ve <= n,
                n == s@.len(),
                forall|j: int| vend <= j < ve ==> is_blank_byte(s@[j]),
            decreases vend,
        {
            vend -= 1;
        }
        let name = vstd::slice::slice_to_vec(vstd::slice::slice_subrange(s, i, ne));
        let value = vstd::slice::slice_to_vec(vstd::slice::slice_subrange(s, vs, vend));
        proof {
            let raw = s@.subrange(vs as int, ve as int);
            assert forall|j: int| (vend - vs) <= j < raw.len() implies is_blank_byte(
                raw[j],
            ) by {
                assert(raw[j] == s@[vs + j]);
            }
            if vend > vs {
                assert(raw[vend - vs - 1] == s@[vend - 1]);
            }
            lemma_rtrim_is(raw, vend - vs);
            assert(raw.take(vend - vs) =~= s@.subrange(vs as int, vend as int));
        }
        let ghost before = headers@;
        headers.push((name, value));
        proof {
            crate::strutil::lemma_map_push(
                before,
                |p: (Vec<u8>, Vec<u8>)| (p.0@, p.1@),
                (name, value),
            );
            assert(headers@.map_values(|p: (Vec<u8>, Vec<u8>)| (p.0@, p.1@)) =~= acc.push(
                (s@.subrange(i as int, ne as int), rtrim(s@.subrange(vs as int, ve as int))),
            ));
        }
        i = ve + 2;
    }
}

} // verus!

verus! {

// ---------------------------------------------------------------------------
// Properties of a successful parse
// ---------------------------------------------------------------------------

/// A well-formed header name: a nonempty run of token bytes.
pub open spec fn name_ok(n: Seq<u8>) -> bool {
    n.len() > 0 && forall|i: int| 0 <= i < n.len() ==> is_token_byte(#[trigger] n[i])
}

/// A finished header block consumed at least the blank line and kept every
/// header it was handed; names of parsed headers are tokens.
pub proof fn lemma_header_block_props(s: Seq<u8>, i: int, acc: Seq<(Seq<u8>, Seq<u8>)>)
    requires
        0 <= i <= s.len(),
        parse_header_block(s, i, acc) is Thru,
    ensures
        ({
            let next = parse_header_block(s, i, acc)->Thru_1;
            let hs = parse_header_block(s, i, acc)->Thru_0;
            &&& i + 2 <= next <= s.len()
            &&& hs.len() >= acc.len()
            &&& (forall|k: int| 0 <= k < acc.len() ==> name_ok(#[trigger] acc[k].0)) ==> (forall|
                k: int,
            | 0 <= k < hs.len() ==> name_ok(#[trigger] hs[k].0))
        }),
    decreases s.len() - i,
{
    if s[i] == 13 {
    } else {
        let ne = scan(s, i, |b: u8| is_token_byte(b));
        lemma_scan_bounds(s, i, |b: u8| is_token_byte(b));
        let vs = scan(s, ne + 1, |b: u8| is_blank_byte(b));
        lemma_scan_bounds(s, ne + 1, |b: u8| is_blank_byte(b));
        let ve = scan(s, vs, |b: u8| is_value_byte(b));
        lemma_scan_bounds(s, vs, |b: u8| is_value_byte(b));
        let name = s.subrange(i, ne);
        let acc2 = acc.push((name, rtrim(s.subrange(vs, ve))));
        lemma_header_block_props(s, ve + 2, acc2);
        assert(name_ok(name)) by {
            assert(forall|j: int| 0 <= j < name.len() ==> name[j] == s[i + j] && is_token_byte(
                #[trigger] name[j],
            ));
        }
        assert forall|k: int|
            (forall|k2: int| 0 <= k2 < acc.len() ==> name_ok(#[trigger] acc[k2].0)) && 0 <= k
                < acc2.len() implies name_ok(#[trigger] acc2[k].0) by {
            if k < acc.len() {
                assert(acc2[k] == acc[k]);
            } else {
                assert(acc2[k] == (name, rtrim(s.subrange(vs, ve))));
            }
        }
    }
}

/// What a finished parse guarantees: the head fits the buffer and its parts
/// are built from the right byte classes.
pub proof fn lemma_parse_done_props(s: Seq<u8>)
    requires
        spec_parse(s) is Done,
    ensures
        ({
            let h = spec_parse(s)->Done_0;
            &&& 0 < h.amt <= s.len()
            &&& h.method.len() > 0
            &&& h.uri.len() > 0
            &&& (forall|i: int| 0 <= i < h.uri.len() ==> #[trigger] h.uri[i] < 128)
            &&& (forall|k: int| 0 <= k < h.headers.len() ==> name_ok(#[trigger] h.headers[k].0))
        }),
{
    let me_ = scan(s, 0, |b: u8| is_token_byte(b));
    lemma_scan_bounds(s, 0, |b: u8| is_token_byte(b));
    let us = me_ + 1;
    let ue = scan(s, us, |b: u8| is_uri_byte(b));
    lemma_scan_bounds(s, us, |b: u8| is_uri_byte(b));
    let h = spec_parse(s)->Done_0;
    assert(h.uri == s.subrange(us, ue));
    assert forall|i: int| 0 <= i < h.uri.len() implies #[trigger] h.uri[i] < 128 by {
        assert(h.uri[i] == s[us + i]);
        assert(is_uri_byte(s[us + i]));
    }
    let vd = ue + 8;
    lemma_header_block_props(s, vd + 3, Seq::empty());
}

// ---------------------------------------------------------------------------
// Content length and the request target's path
// ---------------------------------------------------------------------------

/// The size announced by the first `Content-Length` header; absence, or an
/// unusable value, means zero.
pub open spec fn spec_content_length(headers: Seq<(Seq<u8>, Seq<u8>)>) -> int {
    match crate::request::header_lookup(headers, "Content-Length".spec_bytes()) {
        Some(v) => crate::strutil::content_length_of(v),
        None => 0,
    }
}

/// Reads the first `Content-Length` header.
pub fn get_content_length(headers: &Vec<(Vec<u8>, Vec<u8>)>) -> (r: usize)
    ensures
        r == spec_content_length(headers@.map_values(|p: (Vec<u8>, Vec<u8>)| (p.0@, p.1@))),
{
    let ghost hs = headers@.map_values(|p: (Vec<u8>, Vec<u8>)| (p.0@, p.1@));
    let ghost key = "Content-Length".spec_bytes();
    let mut i: usize = 0;
    proof {
        assert(hs.skip(0) =~= hs);
    }
    while i < headers.len()
        invariant
            i <= headers@.len(),
            hs == headers@.map_values(|p: (Vec<u8>, Vec<u8>)| (p.0@, p.1@)),
            key == "Content-Length".spec_bytes(),
            crate::request::header_lookup(hs, key) == crate::request::header_lookup(
                hs.skip(i as int),
                key,
            ),
        decreases headers@.len() - i,
    {
        proof {
            assert(hs.skip(i as int)[0] == hs[i as int]);
            assert(hs.skip(i as int).drop_first() =~= hs.skip(i as int + 1));
        }
        if crate::strutil::eq_ignore_ascii_case(
            headers[i].0.as_slice(),
            "Content-Length".as_bytes(),
        ) {
            return crate::strutil::parse_content_length(headers[i].1.as_slice());
        }
        i += 1;
    }
    0
}

/// The path of a request target: for an absolute URI the part from the first
/// slash after the authority (or `/` when there is none), and in any case
/// cut before the first `?`.
pub open spec fn uri_path(u: Seq<u8>) -> Seq<u8> {
    let k = if u.len() >= 7 && u.take(7) == "http://".spec_bytes() {
        7
    } else if u.len() >= 8 && u.take(8) == "https://".spec_bytes() {
        8
    } else {
        0
    };
    if k == 0 {
        u.take(crate::strutil::find_sep(u, 63))
    } else {
        let a = u.skip(k);
        let p = crate::strutil::find_sep(a, 47);
        if p >= a.len() {
            seq![47u8]
        } else {
            let q = a.skip(p);
            q.take(crate::strutil::find_sep(q, 63))
        }
    }
}

/// Extracts the path of a request target.
pub fn uri_path_bytes(u: &[u8]) -> (r: Vec<u8>)
    ensures
        r@ == uri_path(u@),
        (forall|i: int| 0 <= i < u@.len() ==> #[trigger] u@[i] < 128) ==> (forall|i: int|
            0 <= i < r@.len() ==> #[trigger] r@[i] < 128),
{
    let n = u.len();
    let k: usize = if n >= 7 && crate::strutil::bytes_eq(
        vstd::slice::slice_subrange(u, 0, 7),
        "http://".as_bytes(),
    ) {
        7
    } else if n >= 8 && crate::strutil::bytes_eq(
        vstd::slice::slice_subrange(u, 0, 8),
        "https://".as_bytes(),
    ) {
        8
    } else {
        0
    };
    proof {
        if n >= 7 {
            assert(u@.subrange(0, 7) =~= u@.take(7));
        }
        if n >= 8 {
            assert(u@.subrange(0, 8) =~= u@.take(8));
        }
    }
    if k == 0 {
        let e = crate::strutil::find_byte(u, 63);
        let r = vstd::slice::slice_to_vec(vstd::slice::slice_subrange(u, 0, e));
        proof {
            assert(r@ =~= uri_path(u@));
        }
        r
    } else {
        let a = vstd::slice::slice_subrange(u, k, n);
        proof {
            assert(a@ =~= u@.skip(k as int));
        }
        let p = crate::strutil::find_byte(a, 47);
        if p == a.len() {
            let mut r: Vec<u8> = Vec::new();
            r.push(47);
            proof {
                assert(r@ =~= uri_path(u@));
            }
            r
        } else {
            let q = vstd::slice::slice_subrange(a, p, a.len());
            proof {
                assert(q@ =~= u@.skip(k as int).skip(p as int));
            }
            let e = crate::strutil::find_byte(q, 63);
            let r = vstd::slice::slice_to_vec(vstd::slice::slice_subrange(q, 0, e));
            proof {
                assert(r@ =~= uri_path(u@));
            }
            r
        }
    }
}

} // verus!

verus! {

// ---------------------------------------------------------------------------
// The codec and its decode step
// ---------------------------------------------------------------------------

/// The codec's size limits.
#[derive(Copy, Clone, Debug, PartialEq, Eq, Structural)]
pub struct HttpCodecCfg {
    /// A request whose head is still incomplete past this length is refused.
    pub max_request_header_len: usize,
    /// A declared body beyond this size is refused.
    pub max_body_size: usize,
    /// A head with more headers than this is a protocol error.
    pub max_headers: usize,
}

impl Default for HttpCodecCfg {
    fn default() -> (r: HttpCodecCfg)
        ensures
            r.max_request_header_len == 8000,
            r.max_body_size == 20_000_000,
            r.max_headers == 64,
    {
        HttpCodecCfg { max_request_header_len: 8000, max_body_size: 20_000_000, max_headers: 64 }
    }
}

impl HttpCodecCfg {
    pub fn new(max_request_header_len: usize, max_body_size: usize, max_headers: usize) -> (r:
        HttpCodecCfg)
        ensures
            r == (HttpCodecCfg { max_request_header_len, max_body_size, max_headers }),
    {
        HttpCodecCfg { max_request_header_len, max_body_size, max_headers }
    }
}

/// A request whose head is decoded and whose body is still arriving.
pub struct PartialRequest {
    pub body_length: usize,
    pub request: crate::request::Request,
    pub route: usize,
    pub params: crate::params::Params,
}

/// The mathematical value of a partial request.
pub struct PartialV {
    pub body_length: int,
    pub request: crate::request::RequestV,
    pub route: int,
    pub params: Seq<(Seq<u8>, Seq<u8>)>,
}

impl View for PartialRequest {
    type V = PartialV;

    open spec fn view(&self) -> PartialV {
        PartialV {
            body_length: self.body_length as int,
            request: self.request@,
            route: self.route as int,
            params: self.params@,
        }
    }
}

/// A fully decoded request with the route that will handle it.
pub struct DecodedRequest {
    pub request: crate::request::Request,
    pub route: usize,
    pub params: crate::params::Params,
}

/// The mathematical value of a decoded request.
pub struct DecReqV {
    pub request: crate::request::RequestV,
    pub route: int,
    pub params: Seq<(Seq<u8>, Seq<u8>)>,
}

impl View for DecodedRequest {
    type V = DecReqV;

    open spec fn view(&self) -> DecReqV {
        DecReqV { request: self.request@, route: self.route as int, params: self.params@ }
    }
}

/// What one decode attempt yields, when it yields anything.
pub enum DecodingResult {
    RouteNotFound,
    HeaderTooLarge,
    BodyTooLarge,
    Complete(DecodedRequest),
}

/// The mathematical value of a decoding outcome.
pub enum DrV {
    RouteNotFound,
    HeaderTooLarge,
    BodyTooLarge,
    Complete(DecReqV),
}

impl View for DecodingResult {
    type V = DrV;

    open spec fn view(&self) -> DrV {
        match self {
            DecodingResult::RouteNotFound => DrV::RouteNotFound,
            DecodingResult::HeaderTooLarge => DrV::HeaderTooLarge,
            DecodingResult::BodyTooLarge => DrV::BodyTooLarge,
            DecodingResult::Complete(d) => DrV::Complete(d@),
        }
    }
}

/// A malformed request or one with too many headers ends the connection.
#[derive(Copy, Clone, Debug, PartialEq, Eq, Structural)]
pub enum DecodeError {
    MalformedRequest,
    TooManyHeaders,
}

/// One connection's decoder: the configured limits and, between the moment a
/// head completes and its body does, the retained partial request.
pub struct HttpCodec {
    pub config: HttpCodecCfg,
    pub request: Option<PartialRequest>,
}

/// The mathematical value of a decode step: the state and buffer it leaves,
/// and what it reports.
#[verifier::ext_equal]
pub struct StepV {
    pub partial: Option<PartialV>,
    pub buf: Seq<u8>,
    pub out: Result<Option<DrV>, DecodeError>,
}

/// The request a fresh decode builds from a parsed head: no body yet, no
/// bindings, and the query read from the target.
pub open spec fn head_request(h: HeadV, m: crate::router::Method) -> crate::request::RequestV {
    crate::request::RequestV {
        method: m,
        uri: h.uri,
        version: h.version,
        headers: h.headers,
        body: None,
        params: Seq::empty(),
        query: crate::request::query_pairs_of(h.uri),
    }
}

/// The decode step on a buffer when no partial request is retained.
pub open spec fn spec_decode_fresh(
    cfg: HttpCodecCfg,
    routes: Seq<crate::router::RouteV>,
    buf: Seq<u8>,
) -> StepV {
    match spec_parse(buf) {
        ParseOut::Bad => StepV { partial: None, buf, out: Err(DecodeError::MalformedRequest) },
        ParseOut::Incomplete => {
            if buf.len() > cfg.max_request_header_len {
                StepV { partial: None, buf: Seq::empty(), out: Ok(Some(DrV::HeaderTooLarge)) }
            } else {
                StepV { partial: None, buf, out: Ok(None) }
            }
        },
        ParseOut::Done(h) => {
            if h.headers.len() > cfg.max_headers {
                StepV { partial: None, buf, out: Err(DecodeError::TooManyHeaders) }
            } else {
                let cl = spec_content_length(h.headers);
                let rest = buf.skip(h.amt);
                if cl > cfg.max_body_size {
                    StepV { partial: None, buf: Seq::empty(), out: Ok(Some(DrV::BodyTooLarge)) }
                } else {
                    match crate::router::Method::spec_from_token(h.method) {
                        None => StepV {
                            partial: None,
                            buf: Seq::empty(),
                            out: Ok(Some(DrV::RouteNotFound)),
                        },
                        Some(m) => {
                            let parts = crate::router::path_parts(uri_path(h.uri));
                            match crate::router::spec_resolve(routes, m, parts) {
                                None => StepV {
                                    partial: None,
                                    buf: Seq::empty(),
                                    out: Ok(Some(DrV::RouteNotFound)),
                                },
                                Some(ri) => {
                                    let params = crate::router::spec_match(
                                        routes[ri].segs,
                                        parts,
                                    ).unwrap();
                                    if rest.len() >= cl {
                                        let body = if cl > 0 {
                                            Some(rest.take(cl))
                                        } else {
                                            None
                                        };
                                        StepV {
                                            partial: None,
                                            buf: rest.skip(cl),
                                            out: Ok(
                                                Some(
                                                    DrV::Complete(
                                                        DecReqV {
                                                            request: crate::request::RequestV {
                                                                body,
                                                                ..head_request(h, m)
                                                            },
                                                            route: ri,
                                                            params,
                                                        },
                                                    ),
                                                ),
                                            ),
                                        }
                                    } else {
                                        StepV {
                                            partial: Some(
                                                PartialV {
                                                    body_length: cl,
                                                    request: crate::request::RequestV {
                                                        body: Some(Seq::empty()),
                                                        ..head_request(h, m)
                                                    },
                                                    route: ri,
                                                    params,
                                                },
                                            ),
                                            buf: rest,
                                            out: Ok(None),
                                        }
                                    }
                                },
                            }
                        },
                    }
                }
            }
        },
    }
}

/// The decode step that appends arriving bytes to a retained body.
pub open spec fn spec_decode_append(p: PartialV, buf: Seq<u8>) -> StepV {
    let acc = p.request.body->Some_0;
    let rem = p.body_length - acc.len();
    if buf.len() >= rem {
        StepV {
            partial: None,
            buf: buf.skip(rem),
            out: Ok(
                Some(
                    DrV::Complete(
                        DecReqV {
                            request: crate::request::RequestV {
                                body: Some(acc + buf.take(rem)),
                                ..p.request
                            },
                            route: p.route,
                            params: p.params,
                        },
                    ),
                ),
            ),
        }
    } else {
        StepV {
            partial: Some(
                PartialV {
                    request: crate::request::RequestV { body: Some(acc + buf), ..p.request },
                    ..p
                },
            ),
            buf: Seq::empty(),
            out: Ok(None),
        }
    }
}

/// One decode step: feed the retained body if one is open, else parse a new
/// head and act on the limits, the router, and how much of the body is here.
pub open spec fn spec_decode(
    cfg: HttpCodecCfg,
    routes: Seq<crate::router::RouteV>,
    partial: Option<PartialV>,
    buf: Seq<u8>,
) -> StepV {
    match partial {
        Some(p) => spec_decode_append(p, buf),
        None => spec_decode_fresh(cfg, routes, buf),
    }
}

impl HttpCodec {
    /// The retained partial request, as a value.
    pub open spec fn partial_view(&self) -> Option<PartialV> {
        match self.request {
            Some(p) => Some(p@),
            None => None,
        }
    }

    /// A retained partial request always has an open accumulator strictly
    /// short of the announced length.
    pub open spec fn wf(&self) -> bool {
        match self.request {
            Some(p) => {
                &&& p.request@.body is Some
                &&& (p.request@.body->Some_0).len() < p.body_length
            },
            None => true,
        }
    }

    /// A fresh decoder with the given limits.
    pub fn new(config: HttpCodecCfg) -> (r: HttpCodec)
        ensures
            r.config == config,
            r.partial_view() is None,
            r.wf(),
    {
        HttpCodec { config, request: None }
    }

    /// Whether a partial request is retained.
    pub fn has_partial(&self) -> (r: bool)
        ensures
            r == (self.partial_view() is Some),
    {
        self.request.is_some()
    }
}

} // verus!

verus! {

/// The view of a decode result.
pub open spec fn result_view(r: Result<Option<DecodingResult>, DecodeError>) -> Result<
    Option<DrV>,
    DecodeError,
> {
    match r {
        Ok(None) => Ok(None),
        Ok(Some(d)) => Ok(Some(d@)),
        Err(e) => Err(e),
    }
}

impl HttpCodec {
    /// One decode step over the connection's buffer.  Appends to a retained
    /// body first; otherwise parses a head, enforces the limits, resolves
    /// the route, and either emits an outcome, waits for more bytes, or
    /// retains a partial request.
    pub fn decode(&mut self, router: &crate::router::InternalRouter, buf: &mut Vec<u8>) -> (r:
        Result<Option<DecodingResult>, DecodeError>)
        requires
            old(self).wf(),
            router.wf(),
        ensures
            ({
                let step = spec_decode(
                    old(self).config,
                    router@,
                    old(self).partial_view(),
                    old(buf)@,
                );
                &&& final(self).config == old(self).config
                &&& final(self).partial_view() == step.partial
                &&& final(buf)@ == step.buf
                &&& result_view(r) == step.out
                &&& final(self).wf()
            }),
    {
        let ghost step = spec_decode(old(self).config, router@, old(self).partial_view(), old(buf)@);
        if self.request.is_some() {
            let p = self.request.take().unwrap();
            let PartialRequest { body_length, request, route, params } = p;
            let crate::request::Request {
                method,
                uri,
                version,
                headers,
                body,
                params: reqparams,
                query,
            } = request;
            let mut acc: Vec<u8> = match body {
                crate::body::Body(Some(v)) => v,
                crate::body::Body(None) => {
                    proof {
                        assert(false);
                    }
                    Vec::new()
                },
            };
            let rem = body_length - acc.len();
            if buf.len() >= rem {
                let mut tail = buf.split_off(rem);
                acc.append(buf);
                core::mem::swap(buf, &mut tail);
                let request = crate::request::Request {
                    method,
                    uri,
                    version,
                    headers,
                    body: crate::body::Body(Some(acc)),
                    params: reqparams,
                    query,
                };
                let dr = DecodedRequest { request, route, params };
                proof {
                    assert(dr.request@ =~= (crate::request::RequestV {
                        body: dr.request@.body,
                        ..old(self).partial_view()->Some_0.request
                    }));
                    assert(step.partial is None);
                }
                return Ok(Some(DecodingResult::Complete(dr)));
            } else {
                acc.append(buf);
                let request = crate::request::Request {
                    method,
                    uri,
                    version,
                    headers,
                    body: crate::body::Body(Some(acc)),
                    params: reqparams,
                    query,
                };
                self.request = Some(PartialRequest { body_length, request, route, params });
                proof {
                    let sp = step.partial->Some_0;
                    let cp = self.request->Some_0;
                    assert(cp@.request =~= sp.request);
                    assert(final(buf)@ =~= Seq::<u8>::empty());
                }
                return Ok(None);
            }
        }
        match parse_request(buf.as_slice()) {
            Parsed::Bad => Err(DecodeError::MalformedRequest),
            Parsed::Incomplete => {
                if buf.len() > self.config.max_request_header_len {
                    buf.clear();
                    Ok(Some(DecodingResult::HeaderTooLarge))
                } else {
                    Ok(None)
                }
            },
            Parsed::Done(head) => {
                proof {
                    lemma_parse_done_props(old(buf)@);
                }
                if head.headers.len() > self.config.max_headers {
                    return Err(DecodeError::TooManyHeaders);
                }
                let cl = get_content_length(&head.headers);
                let tail = buf.split_off(head.amt);
                *buf = tail;
                if cl > self.config.max_body_size {
                    buf.clear();
                    return Ok(Some(DecodingResult::BodyTooLarge));
                }
                let m = match crate::router::Method::from_token(head.method.as_slice()) {
                    Some(m) => m,
                    None => {
                        buf.clear();
                        return Ok(Some(DecodingResult::RouteNotFound));
                    },
                };
                let path_bytes = uri_path_bytes(head.uri.as_slice());
                proof {
                    crate::strutil::lemma_ascii_decode(path_bytes@);
                }
                let path_str = crate::strutil::bytes_to_string(path_bytes);
                let resolved = router.resolve(m, path_str.as_str());
                match resolved {
                    None => {
                        buf.clear();
                        Ok(Some(DecodingResult::RouteNotFound))
                    },
                    Some((idx, params)) => {
                        // header names are tokens, so ASCII text
                        let mut sheaders: Vec<(String, Vec<u8>)> = Vec::new();
                        let ghost hsv = head.headers@.map_values(
                            |p: (Vec<u8>, Vec<u8>)| (p.0@, p.1@),
                        );
                        let mut hi: usize = 0;
                        proof {
                            assert(sheaders@.map_values(
                                |h: (String, Vec<u8>)| (crate::strutil::str_bytes(h.0), h.1@),
                            ) =~= hsv.take(0));
                        }
                        while hi < head.headers.len()
                            invariant
                                hi <= head.headers@.len(),
                                hsv == head.headers@.map_values(
                                    |p: (Vec<u8>, Vec<u8>)| (p.0@, p.1@),
                                ),
                                forall|k: int| 0 <= k < hsv.len() ==> name_ok(#[trigger] hsv[k].0),
                                sheaders@.map_values(
                                    |h: (String, Vec<u8>)| (crate::strutil::str_bytes(h.0), h.1@),
                                ) == hsv.take(hi as int),
                            decreases head.headers@.len() - hi,
                        {
                            let ghost before = sheaders@;
                            proof {
                                assert(hsv[hi as int] == (head.headers@[hi as int].0@, head.headers@[hi as int].1@));
                                assert(name_ok(hsv[hi as int].0));
                                assert(forall|j: int|
                                    0 <= j < head.headers@[hi as int].0@.len() ==> is_token_byte(
                                        #[trigger] head.headers@[hi as int].0@[j],
                                    ));
                                assert(forall|j: int|
                                    0 <= j < head.headers@[hi as int].0@.len()
                                        ==> #[trigger] head.headers@[hi as int].0@[j] < 128);
                                crate::strutil::lemma_ascii_decode(head.headers@[hi as int].0@);
                            }
                            let name = crate::strutil::bytes_to_string(
                                crate::strutil::clone_bytes(&head.headers[hi].0),
                            );
                            let value = crate::strutil::clone_bytes(&head.headers[hi].1);
                            sheaders.push((name, value));
                            proof {
                                crate::strutil::lemma_map_push(
                                    before,
                                    |h: (String, Vec<u8>)| (crate::strutil::str_bytes(h.0), h.1@),
                                    (name, value),
                                );
                                assert(sheaders@.map_values(
                                    |h: (String, Vec<u8>)| (crate::strutil::str_bytes(h.0), h.1@),
                                ) =~= hsv.take(hi as int + 1));
                            }
                            hi += 1;
                        }
                        proof {
                            assert(hsv.take(head.headers@.len() as int) =~= hsv);
                        }
                        proof {
                            crate::strutil::lemma_ascii_decode(head.uri@);
                        }
                        let uri_string = crate::strutil::bytes_to_string(head.uri);
                        let body_complete = buf.len() >= cl;
                        if body_complete {
                            let body = if cl > 0 {
                                // the body is exactly the announced length;
                                // the excess stays buffered
                                let mut body_bytes = buf.split_off(cl);
                                core::mem::swap(buf, &mut body_bytes);
                                crate::body::Body(Some(body_bytes))
                            } else {
                                crate::body::Body(None)
                            };
                            let request = crate::request::Request::new(
                                m,
                                uri_string,
                                head.version,
                                sheaders,
                                body,
                                crate::params::Params::new(),
                            );
                            let dr = DecodedRequest { request, route: idx, params };
                            proof {
                                let h = spec_parse(old(buf)@)->Done_0;
                                assert(dr.request@.params =~= Seq::<(Seq<u8>, Seq<u8>)>::empty());
                                assert(dr.request@ =~= (crate::request::RequestV {
                                    body: dr.request@.body,
                                    ..head_request(h, m)
                                }));
                            }
                            Ok(Some(DecodingResult::Complete(dr)))
                        } else {
                            let request = crate::request::Request::new(
                                m,
                                uri_string,
                                head.version,
                                sheaders,
                                crate::body::Body(Some(Vec::new())),
                                crate::params::Params::new(),
                            );
                            self.request = Some(
                                PartialRequest { body_length: cl, request, route: idx, params },
                            );
                            proof {
                                let h = spec_parse(old(buf)@)->Done_0;
                                let cp = self.request->Some_0;
                                assert(cp.request@.params =~= Seq::<(Seq<u8>, Seq<u8>)>::empty());
                                assert(cp.request@.body =~= Some(Seq::<u8>::empty()));
                                assert(cp.request@ =~= (crate::request::RequestV {
                                    body: Some(Seq::empty()),
                                    ..head_request(h, m)
                                }));
                            }
                            Ok(None)
                        }
                    },
                }
            },
        }
    }
}

} // verus!

verus! {

// ---------------------------------------------------------------------------
// The response encoder
// ---------------------------------------------------------------------------

/// The wire text of a protocol version.
pub open spec fn version_bytes(v: Version) -> Seq<u8> {
    match v {
        Version::Http10 => "HTTP/1.0".spec_bytes(),
        Version::Http11 => "HTTP/1.1".spec_bytes(),
    }
}

/// The wire text of a reason phrase.
pub open spec fn reason_bytes(code: u16) -> Seq<u8> {
    vstd::utf8::encode_utf8(crate::error::StatusCode::spec_reason(code))
}

/// CR LF.
pub open spec fn crlf() -> Seq<u8> {
    seq![13u8, 10u8]
}

/// The status line: the version, the numeric code, and the reason phrase.
pub open spec fn status_line_bytes(v: Version, code: u16) -> Seq<u8> {
    version_bytes(v) + seq![32u8] + crate::strutil::dec_repr(code as int) + seq![32u8]
        + reason_bytes(code) + crlf()
}

/// One header line: `name: value` and CR LF.
pub open spec fn header_line_bytes(h: (Seq<u8>, Seq<u8>)) -> Seq<u8> {
    h.0 + ": ".spec_bytes() + h.1 + crlf()
}

/// All header lines, in order.
pub open spec fn headers_bytes(hs: Seq<(Seq<u8>, Seq<u8>)>) -> Seq<u8>
    decreases hs.len(),
{
    if hs.len() == 0 {
        Seq::empty()
    } else {
        header_line_bytes(hs[0]) + headers_bytes(hs.drop_first())
    }
}

/// The automatic `Content-Length` line: written when a body is present and
/// no explicit `Content-Length` header was set.
pub open spec fn auto_content_length_bytes(r: crate::response::ResponseV) -> Seq<u8> {
    match r.body {
        Some(b) => {
            if crate::request::header_lookup(r.headers, "Content-Length".spec_bytes()) is None {
                "Content-Length: ".spec_bytes() + crate::strutil::dec_repr(b.len() as int) + crlf()
            } else {
                Seq::empty()
            }
        },
        None => Seq::empty(),
    }
}

/// The encoded response: status line, headers in insertion order, an
/// automatic `Content-Length` when owed, a blank line, and the body bytes.
pub open spec fn spec_encode(r: crate::response::ResponseV) -> Seq<u8> {
    status_line_bytes(r.version, r.status) + headers_bytes(r.headers) + auto_content_length_bytes(
        r,
    ) + crlf() + (match r.body {
        Some(b) => b,
        None => Seq::empty(),
    })
}

impl HttpCodec {
    /// Appends a response's wire bytes to the output buffer.
    #[verifier::rlimit(50)]
    pub fn encode(&self, msg: crate::response::Response, buf: &mut Vec<u8>)
        ensures
            final(buf)@ == old(buf)@ + spec_encode(msg@),
    {
        let ghost start = old(buf)@;
        // status line
        match msg.version {
            Version::Http10 => buf.extend_from_slice("HTTP/1.0".as_bytes()),
            Version::Http11 => buf.extend_from_slice("HTTP/1.1".as_bytes()),
        }
        buf.push(32);
        let mut code_digits = crate::strutil::usize_to_dec(msg.status.code as usize);
        buf.append(&mut code_digits);
        buf.push(32);
        buf.extend_from_slice(msg.status.canonical_reason().as_bytes());
        buf.push(13);
        buf.push(10);
        proof {
            assert(buf@ =~= start + status_line_bytes(msg@.version, msg@.status));
        }
        let ghost after_status = buf@;
        // headers
        let ghost hs = msg@.headers;
        let mut i: usize = 0;
        proof {
            assert(hs.skip(0) =~= hs);
            assert(buf@ + headers_bytes(hs) =~= after_status + headers_bytes(hs));
        }
        while i < msg.headers.len()
            invariant
                i <= msg.headers@.len(),
                hs == msg@.headers,
                after_status + headers_bytes(hs) == buf@ + headers_bytes(hs.skip(i as int)),
            decreases msg.headers@.len() - i,
        {
            proof {
                assert(hs.skip(i as int)[0] == hs[i as int]);
                assert(hs.skip(i as int).drop_first() =~= hs.skip(i as int + 1));
                assert(hs[i as int] == (crate::strutil::str_bytes(msg.headers@[i as int].0),
                crate::strutil::str_bytes(msg.headers@[i as int].1)));
            }
            let ghost before = buf@;
            buf.extend_from_slice(msg.headers[i].0.as_str().as_bytes());
            buf.extend_from_slice(": ".as_bytes());
            buf.extend_from_slice(msg.headers[i].1.as_str().as_bytes());
            buf.push(13);
            buf.push(10);
            proof {
                assert(buf@ =~= before + header_line_bytes(hs[i as int]));
                assert(buf@ + headers_bytes(hs.skip(i as int + 1)) =~= before + (header_line_bytes(
                    hs[i as int],
                ) + headers_bytes(hs.skip(i as int + 1))));
            }
            i += 1;
        }
        proof {
            assert(hs.skip(i as int).len() == 0);
            assert(buf@ + headers_bytes(hs.skip(i as int)) =~= buf@);
            assert(buf@ =~= after_status + headers_bytes(hs));
        }
        // automatic content length
        let has_cl = header_has_content_length(&msg.headers);
        match msg.body.inner() {
            Some(v) => {
                if !has_cl {
                    let ghost before = buf@;
                    buf.extend_from_slice("Content-Length: ".as_bytes());
                    let mut len_digits = crate::strutil::usize_to_dec(v.len());
                    buf.append(&mut len_digits);
                    buf.push(13);
                    buf.push(10);
                    proof {
                        assert(buf@ =~= before + auto_content_length_bytes(msg@));
                    }
                } else {
                    proof {
                        assert(auto_content_length_bytes(msg@) =~= Seq::<u8>::empty());
                    }
                }
            },
            None => {
                proof {
                    assert(auto_content_length_bytes(msg@) =~= Seq::<u8>::empty());
                }
            },
        }
        // blank line and body
        buf.push(13);
        buf.push(10);
        let ghost before_body = buf@;
        match msg.body.inner() {
            Some(v) => {
                buf.extend_from_slice(v.as_slice());
            },
            None => {},
        }
        proof {
            assert(buf@ =~= start + spec_encode(msg@));
        }
    }
}

/// Whether an explicit `Content-Length` header is set.
fn header_has_content_length(headers: &Vec<(String, String)>) -> (r: bool)
    ensures
        r == (crate::request::header_lookup(
            headers@.map_values(
                |h: (String, String)| (crate::strutil::str_bytes(h.0), crate::strutil::str_bytes(
                    h.1,
                )),
            ),
            "Content-Length".spec_bytes(),
        ) is Some),
{
    let ghost hs = headers@.map_values(
        |h: (String, String)| (crate::strutil::str_bytes(h.0), crate::strutil::str_bytes(h.1)),
    );
    let mut i: usize = 0;
    proof {
        assert(hs.skip(0) =~= hs);
    }
    while i < headers.len()
        invariant
            i <= headers@.len(),
            hs == headers@.map_values(
                |h: (String, String)| (crate::strutil::str_bytes(h.0), crate::strutil::str_bytes(
                    h.1,
                )),
            ),
            crate::request::header_lookup(hs, "Content-Length".spec_bytes())
                == crate::request::header_lookup(
                hs.skip(i as int),
                "Content-Length".spec_bytes(),
            ),
        decreases headers@.len() - i,
    {
        proof {
            assert(hs.skip(i as int)[0] == hs[i as int]);
            assert(hs.skip(i as int).drop_first() =~= hs.skip(i as int + 1));
        }
        if crate::strutil::eq_ignore_ascii_case(
            headers[i].0.as_str().as_bytes(),
            "Content-Length".as_bytes(),
        ) {
            return true;
        }
        i += 1;
    }
    false
}

} // verus!

verus! {

// ---------------------------------------------------------------------------
// Laws of the incremental parser and decoder
// ---------------------------------------------------------------------------

/// Cutting a buffer before the end of a parsed header block leaves the
/// parse incomplete; cutting at or after it leaves it unchanged.
pub proof fn lemma_header_block_prefix(s: Seq<u8>, i: int, acc: Seq<(Seq<u8>, Seq<u8>)>, n: int)
    requires
        0 <= i <= s.len(),
        parse_header_block(s, i, acc) is Thru,
        i <= n <= s.len(),
    ensures
        ({
            let next = parse_header_block(s, i, acc)->Thru_1;
            if n >= next {
                parse_header_block(s.take(n), i, acc) == parse_header_block(s, i, acc)
            } else {
                parse_header_block(s.take(n), i, acc) is Incomplete
            }
        }),
    decreases s.len() - i,
{
    let t = s.take(n);
    let next = parse_header_block(s, i, acc)->Thru_1;
    lemma_header_block_props(s, i, acc);
    if s[i] == 13 {
        if n >= i + 2 {
            assert(t[i] == 13 && t[i + 1] == 10);
        }
    } else {
        let tok = |b: u8| is_token_byte(b);
        let blank = |b: u8| is_blank_byte(b);
        let val = |b: u8| is_value_byte(b);
        let ne = scan(s, i, tok);
        lemma_scan_bounds(s, i, tok);
        lemma_scan_take(s, i, tok, n);
        let vs = scan(s, ne + 1, blank);
        lemma_scan_bounds(s, ne + 1, blank);
        let ve = scan(s, vs, val);
        lemma_scan_bounds(s, vs, val);
        let acc2 = acc.push((s.subrange(i, ne), rtrim(s.subrange(vs, ve))));
        lemma_header_block_props(s, ve + 2, acc2);
        assert(next >= ve + 4);
        if n <= ne {
        } else {
            assert(t[ne] == s[ne]);
            lemma_scan_take(s, ne + 1, blank, n);
            if n <= vs {
            } else {
                assert(t[vs] == s[vs]);
                lemma_scan_take(s, vs, val, n);
                if n <= ve {
                } else {
                    assert(t[ve] == s[ve]);
                    if n == ve + 1 {
                    } else {
                        assert(t[ve + 1] == s[ve + 1]);
                        assert(t.subrange(i, ne) =~= s.subrange(i, ne));
                        assert(t.subrange(vs, ve) =~= s.subrange(vs, ve));
                        lemma_header_block_prefix(s, ve + 2, acc2, n);
                    }
                }
            }
        }
    }
}

/// Cutting a buffer before the end of a parsed head leaves the parse
/// incomplete; cutting at or after it leaves it unchanged.
pub proof fn lemma_parse_prefix(s: Seq<u8>, n: int)
    requires
        spec_parse(s) is Done,
        0 <= n <= s.len(),
    ensures
        ({
            let h = spec_parse(s)->Done_0;
            if n >= h.amt {
                spec_parse(s.take(n)) == spec_parse(s)
            } else {
                spec_parse(s.take(n)) is Incomplete
            }
        }),
{
    let t = s.take(n);
    let h = spec_parse(s)->Done_0;
    let tok = |b: u8| is_token_byte(b);
    let uri = |b: u8| is_uri_byte(b);
    let me_ = scan(s, 0, tok);
    lemma_scan_bounds(s, 0, tok);
    lemma_scan_take(s, 0, tok, n);
    let us = me_ + 1;
    let ue = scan(s, us, uri);
    lemma_scan_bounds(s, us, uri);
    let vp = ue + 1;
    let vd = vp + 7;
    let hstart = vd + 3;
    lemma_header_block_props(s, hstart, Seq::empty());
    assert(h.amt >= hstart + 2);
    if n <= me_ {
        assert(scan(t, 0, tok) == n);
    } else {
        assert(t[me_] == s[me_]);
        lemma_scan_take(s, us, uri, n);
        if n <= ue {
            assert(scan(t, us, uri) == n);
        } else {
            assert(t[ue] == s[ue]);
            // the version field of the full buffer has no mismatch
            assert(!(exists|j: int| 0 <= j < 7 && s[vp + j] != version_prefix()[j]));
            assert forall|j: int|
                0 <= j < 7 && vp + j < t.len() implies t[vp + j] == version_prefix()[j] by {
                assert(t[vp + j] == s[vp + j]);
                assert(!(s[vp + j] != version_prefix()[j]));
            }
            if vp + 7 > n {
                assert(spec_parse_version(t, me_, ue) is Incomplete);
            } else if vd >= n {
                assert(spec_parse_version(t, me_, ue) is Incomplete);
            } else {
                assert(t[vd] == s[vd]);
                if vd + 1 >= n {
                } else {
                    assert(t[vd + 1] == s[vd + 1]);
                    if vd + 2 >= n {
                    } else {
                        assert(t[vd + 2] == s[vd + 2]);
                        lemma_header_block_prefix(s, hstart, Seq::empty(), n);
                        if n >= h.amt {
                            assert(t.subrange(0, me_) =~= s.subrange(0, me_));
                            assert(t.subrange(me_ + 1, ue) =~= s.subrange(me_ + 1, ue));
                            assert(spec_parse(t) == spec_parse(s));
                        }
                    }
                }
            }
        }
    }
}

} // verus!

verus! {

/// Law: a head still incomplete past the configured limit yields
/// `HeaderTooLarge` and clears the buffer.
pub proof fn lemma_header_too_large(
    cfg: HttpCodecCfg,
    routes: Seq<crate::router::RouteV>,
    buf: Seq<u8>,
)
    requires
        spec_parse(buf) is Incomplete,
        buf.len() > cfg.max_request_header_len,
    ensures
        spec_decode(cfg, routes, None, buf) == (StepV {
            partial: None,
            buf: Seq::empty(),
            out: Ok(Some(DrV::HeaderTooLarge)),
        }),
{
}

/// Law: a declared body over the configured limit yields `BodyTooLarge`
/// before any body byte is taken in, and clears the buffer.
pub proof fn lemma_body_too_large(
    cfg: HttpCodecCfg,
    routes: Seq<crate::router::RouteV>,
    buf: Seq<u8>,
)
    requires
        spec_parse(buf) is Done,
        spec_parse(buf)->Done_0.headers.len() <= cfg.max_headers,
        spec_content_length(spec_parse(buf)->Done_0.headers) > cfg.max_body_size,
    ensures
        spec_decode(cfg, routes, None, buf) == (StepV {
            partial: None,
            buf: Seq::empty(),
            out: Ok(Some(DrV::BodyTooLarge)),
        }),
{
}

/// Law: decoding is deterministic.  Two decoders with the same limits and
/// routes, in the same state and fed the same bytes, step to the same state,
/// leftover buffer, and outcome.
pub proof fn lemma_decode_deterministic(
    cfg1: HttpCodecCfg,
    cfg2: HttpCodecCfg,
    routes1: Seq<crate::router::RouteV>,
    routes2: Seq<crate::router::RouteV>,
    partial1: Option<PartialV>,
    partial2: Option<PartialV>,
    buf1: Seq<u8>,
    buf2: Seq<u8>,
)
    requires
        cfg1 == cfg2,
        routes1 == routes2,
        partial1 == partial2,
        buf1 == buf2,
    ensures
        spec_decode(cfg1, routes1, partial1, buf1) == spec_decode(cfg2, routes2, partial2, buf2),
{
}

/// Law: splitting a complete, decodable request's bytes at any offset and
/// feeding the pieces in turn gives the same outcome as feeding them at
/// once.  The head must fit under the header limit; an early cut then waits
/// for more bytes, and the second feeding finishes with the same decoded
/// request.
pub proof fn lemma_streaming_equivalence(
    cfg: HttpCodecCfg,
    routes: Seq<crate::router::RouteV>,
    buf: Seq<u8>,
    n: int,
)
    requires
        0 <= n <= buf.len(),
        spec_parse(buf) is Done,
        ({
            let h = spec_parse(buf)->Done_0;
            let cl = spec_content_length(h.headers);
            &&& h.amt <= cfg.max_request_header_len
            &&& h.headers.len() <= cfg.max_headers
            &&& cl <= cfg.max_body_size
            &&& h.amt + cl == buf.len()
            &&& crate::router::Method::spec_from_token(h.method) is Some
            &&& crate::router::spec_resolve(
                routes,
                crate::router::Method::spec_from_token(h.method)->Some_0,
                crate::router::path_parts(uri_path(h.uri)),
            ) is Some
        }),
    ensures
        ({
            let whole = spec_decode(cfg, routes, Option::<PartialV>::None, buf);
            let s1 = spec_decode(cfg, routes, Option::<PartialV>::None, buf.take(n));
            if n == buf.len() {
                s1 == whole
            } else {
                s1.out == Result::<Option<DrV>, DecodeError>::Ok(Option::<DrV>::None)
                    && spec_decode(
                    cfg,
                    routes,
                    s1.partial,
                    s1.buf + buf.skip(n),
                ).out == whole.out
            }
        }),
{
    let h = spec_parse(buf)->Done_0;
    let cl = spec_content_length(h.headers);
    let whole = spec_decode(cfg, routes, Option::<PartialV>::None, buf);
    let s1 = spec_decode(cfg, routes, Option::<PartialV>::None, buf.take(n));
    lemma_parse_done_props(buf);
    lemma_parse_prefix(buf, n);
    if n == buf.len() {
        assert(buf.take(n) =~= buf);
    } else if n < h.amt {
        // the head is still incomplete and under the limit: wait for more
        assert(spec_parse(buf.take(n)) is Incomplete);
        assert(buf.take(n).len() == n <= cfg.max_request_header_len);
        assert(s1 == (StepV { partial: None, buf: buf.take(n), out: Ok(None) }));
        assert(buf.take(n) + buf.skip(n) =~= buf);
    } else {
        // the head is complete; part of the body is retained
        assert(spec_parse(buf.take(n)) == spec_parse(buf));
        let rest1 = buf.take(n).skip(h.amt);
        assert(rest1.len() == n - h.amt < cl);
        assert(cl > 0);
        assert(s1.out == Result::<Option<DrV>, DecodeError>::Ok(Option::<DrV>::None));
        let m = crate::router::Method::spec_from_token(h.method)->Some_0;
        let parts = crate::router::path_parts(uri_path(h.uri));
        let ri = crate::router::spec_resolve(routes, m, parts)->Some_0;
        let p = s1.partial->Some_0;
        assert(p.body_length == cl);
        assert(p.request.body == Some(Seq::<u8>::empty()));
        let buf2 = s1.buf + buf.skip(n);
        assert(buf2 =~= buf.skip(h.amt));
        assert(buf2.len() == cl);
        let s2 = spec_decode(cfg, routes, s1.partial, buf2);
        assert(Seq::<u8>::empty() + buf2.take(cl) =~= buf.skip(h.amt));
        let restw = buf.skip(h.amt);
        assert(restw.len() == cl >= cl);
        assert(whole.out == Result::<Option<DrV>, DecodeError>::Ok(
            Some(
                DrV::Complete(
                    DecReqV {
                        request: crate::request::RequestV {
                            body: Some(restw),
                            ..head_request(h, m)
                        },
                        route: ri,
                        params: crate::router::spec_match(routes[ri].segs, parts).unwrap(),
                    },
                ),
            ),
        ));
        assert(s2.out == Result::<Option<DrV>, DecodeError>::Ok(
            Some(
                DrV::Complete(
                    DecReqV {
                        request: crate::request::RequestV {
                            body: Some(Seq::<u8>::empty() + buf2.take(cl)),
                            ..p.request
                        },
                        route: p.route,
                        params: p.params,
                    },
                ),
            ),
        ));
        assert(p.request == (crate::request::RequestV {
            body: Some(Seq::<u8>::empty()),
            ..head_request(h, m)
        }));
        assert((crate::request::RequestV {
            body: Some(Seq::<u8>::empty() + buf2.take(cl)),
            ..p.request
        }) =~= (crate::request::RequestV { body: Some(restw), ..head_request(h, m) }));
        assert(s2.out == whole.out);
    }
}

} // verus!
