//! The static-asset cache: checksum-addressed file bytes with pluggable
//! change detection and eviction.

use vstd::prelude::*;
use vstd::string::{StrSliceExecFns, StringExecFns, StringSliceAdditionalSpecFns};

verus! {

/// When a cached file is considered stale.  Durations are in milliseconds.
#[derive(Debug, Copy, Clone, Eq, PartialEq, Hash, Structural)]
pub enum ChangeDetection {
    /// Reload when the file's modification timestamp differs from the stored one.
    FileInfoChange,
    /// Reload when the entry is older than the given duration.
    Timed(u64),
    /// Always serve the cached bytes.
    Never,
    /// Bypass the cache entirely.
    NoCache,
}

/// When a cache entry may be removed.  Durations are in milliseconds.
#[derive(Debug, Copy, Clone, Eq, PartialEq, Hash, Structural)]
pub enum EvictionPolicy {
    /// Evict after the given idle time.
    AfterLastAccess(u64),
    /// Evict when the cache would otherwise exceed its maximum size.
    WhenMaxSizeReached,
    /// Never evict.
    Never,
}

impl Default for EvictionPolicy {
    fn default() -> (r: EvictionPolicy)
        ensures
            r == EvictionPolicy::WhenMaxSizeReached,
    {
        EvictionPolicy::WhenMaxSizeReached
    }
}

} // verus!

verus! {

// ---------------------------------------------------------------------------
// Entries and the cache's mathematical model
// ---------------------------------------------------------------------------

/// One cached file.
#[derive(Debug)]
pub struct CacheEntry {
    pub path: String,
    pub data: Vec<u8>,
    /// SHA-1 digest of `data`.
    pub checksum: Vec<u8>,
    /// When the entry was last served or refreshed, in milliseconds.
    pub last_touched: u64,
    /// The file's modification stamp when loaded, in milliseconds.
    pub last_modification: u64,
    pub change_detection: ChangeDetection,
    pub eviction_policy: EvictionPolicy,
    pub mime_type: Option<String>,
}

/// The mathematical value of a cache entry.
#[verifier::ext_equal]
pub struct EntryV {
    pub path: Seq<u8>,
    pub data: Seq<u8>,
    pub checksum: Seq<u8>,
    pub last_touched: int,
    pub last_modification: int,
    pub change_detection: ChangeDetection,
    pub eviction_policy: EvictionPolicy,
    pub mime_type: Option<Seq<u8>>,
}

impl View for CacheEntry {
    type V = EntryV;

    open spec fn view(&self) -> EntryV {
        EntryV {
            path: crate::strutil::str_bytes(self.path),
            data: self.data@,
            checksum: self.checksum@,
            last_touched: self.last_touched as int,
            last_modification: self.last_modification as int,
            change_detection: self.change_detection,
            eviction_policy: self.eviction_policy,
            mime_type: match self.mime_type {
                Some(m) => Some(crate::strutil::str_bytes(m)),
                None => None,
            },
        }
    }
}

/// Total size of the cached bytes.
pub open spec fn total_size(es: Seq<EntryV>) -> int
    decreases es.len(),
{
    if es.len() == 0 {
        0
    } else {
        es[0].data.len() + total_size(es.drop_first())
    }
}

pub proof fn lemma_total_size_parts(es: Seq<EntryV>)
    ensures
        total_size(es) >= 0,
        forall|i: int| 0 <= i < es.len() ==> (#[trigger] es[i].data).len() <= total_size(es),
    decreases es.len(),
{
    if es.len() > 0 {
        lemma_total_size_parts(es.drop_first());
        assert forall|i: int|
            0 <= i < es.len() implies (#[trigger] es[i].data).len() <= total_size(es) by {
            if i > 0 {
                assert(es[i] == es.drop_first()[i - 1]);
            }
        }
    }
}

/// Removing an element never grows the total.
pub proof fn lemma_total_size_remove(es: Seq<EntryV>, i: int)
    requires
        0 <= i < es.len(),
    ensures
        total_size(es.remove(i)) == total_size(es) - es[i].data.len(),
    decreases es.len(),
{
    if i == 0 {
        assert(es.remove(0) =~= es.drop_first());
    } else {
        assert(es.remove(i).drop_first() =~= es.drop_first().remove(i - 1));
        assert(es.remove(i)[0] == es[0]);
        lemma_total_size_remove(es.drop_first(), i - 1);
    }
}

pub proof fn lemma_total_size_push(es: Seq<EntryV>, e: EntryV)
    ensures
        total_size(es.push(e)) == total_size(es) + e.data.len(),
    decreases es.len(),
{
    assert(es.push(e).len() > 0);
    assert(total_size(es.push(e)) == es.push(e)[0].data.len() + total_size(
        es.push(e).drop_first(),
    ));
    if es.len() == 0 {
        assert(es.push(e)[0] == e);
        assert(es.push(e).drop_first() =~= Seq::<EntryV>::empty());
        assert(total_size(Seq::<EntryV>::empty()) == 0);
    } else {
        assert(es.push(e).drop_first() =~= es.drop_first().push(e));
        assert(es.push(e)[0] == es[0]);
        lemma_total_size_push(es.drop_first(), e);
    }
}

pub proof fn lemma_total_size_update(es: Seq<EntryV>, i: int, e: EntryV)
    requires
        0 <= i < es.len(),
    ensures
        total_size(es.update(i, e)) == total_size(es) - es[i].data.len() + e.data.len(),
    decreases es.len(),
{
    if i == 0 {
        assert(es.update(0, e).drop_first() =~= es.drop_first());
        assert(es.update(0, e)[0] == e);
    } else {
        assert(es.update(i, e).drop_first() =~= es.drop_first().update(i - 1, e));
        assert(es.update(i, e)[0] == es[0]);
        lemma_total_size_update(es.drop_first(), i - 1, e);
    }
}

/// First entry with the given source path.
pub open spec fn find_path(es: Seq<EntryV>, p: Seq<u8>) -> Option<int>
    decreases es.len(),
{
    if es.len() == 0 {
        None
    } else if es[0].path == p {
        Some(0)
    } else {
        match find_path(es.drop_first(), p) {
            Some(i) => Some(i + 1),
            None => None,
        }
    }
}

pub proof fn lemma_find_path_props(es: Seq<EntryV>, p: Seq<u8>)
    ensures
        match find_path(es, p) {
            Some(i) => 0 <= i < es.len() && es[i].path == p && (forall|j: int|
                0 <= j < i ==> (#[trigger] es[j]).path != p),
            None => forall|j: int| 0 <= j < es.len() ==> (#[trigger] es[j]).path != p,
        },
    decreases es.len(),
{
    if es.len() > 0 && es[0].path != p {
        lemma_find_path_props(es.drop_first(), p);
        match find_path(es.drop_first(), p) {
            Some(i0) => {
                assert(es[i0 + 1] == es.drop_first()[i0]);
                assert forall|j: int| 0 <= j < i0 + 1 implies (#[trigger] es[j]).path != p by {
                    if j > 0 {
                        assert(es[j] == es.drop_first()[j - 1]);
                    }
                }
            },
            None => {
                assert forall|j: int| 0 <= j < es.len() implies (#[trigger] es[j]).path != p by {
                    if j > 0 {
                        assert(es[j] == es.drop_first()[j - 1]);
                    }
                }
            },
        }
    }
}

/// A whole-number difference that stops at zero.
pub open spec fn sat_sub(a: int, b: int) -> int {
    if a >= b {
        a - b
    } else {
        0
    }
}

/// Whether a time-based eviction removes the entry.
pub open spec fn expired(e: EntryV, now: int) -> bool {
    match e.eviction_policy {
        EvictionPolicy::AfterLastAccess(d) => sat_sub(now, e.last_touched) > d,
        _ => false,
    }
}

/// The entries kept by a time-based eviction sweep.
pub open spec fn sweep(es: Seq<EntryV>, now: int) -> Seq<EntryV>
    decreases es.len(),
{
    if es.len() == 0 {
        es
    } else if expired(es[0], now) {
        sweep(es.drop_first(), now)
    } else {
        seq![es[0]] + sweep(es.drop_first(), now)
    }
}

pub proof fn lemma_sweep_props(es: Seq<EntryV>, now: int)
    ensures
        total_size(sweep(es, now)) <= total_size(es),
        forall|i: int|
            0 <= i < sweep(es, now).len() ==> exists|j: int|
                0 <= j < es.len() && #[trigger] sweep(es, now)[i] == es[j],
    decreases es.len(),
{
    lemma_total_size_parts(es);
    if es.len() > 0 {
        lemma_sweep_props(es.drop_first(), now);
        let sw = sweep(es, now);
        if expired(es[0], now) {
            assert forall|i: int|
                0 <= i < sw.len() implies exists|j: int|
                0 <= j < es.len() && #[trigger] sw[i] == es[j] by {
                let j0 = choose|j0: int|
                    0 <= j0 < es.drop_first().len() && sweep(es.drop_first(), now)[i]
                        == es.drop_first()[j0];
                assert(sw[i] == es[j0 + 1]);
            }
        } else {
            assert(sw[0] == es[0]);
            assert(sw.drop_first() =~= sweep(es.drop_first(), now));
            assert(total_size(sw) == es[0].data.len() + total_size(sweep(es.drop_first(), now)));
            assert forall|i: int|
                0 <= i < sw.len() implies exists|j: int|
                0 <= j < es.len() && #[trigger] sw[i] == es[j] by {
                if i > 0 {
                    let j0 = choose|j0: int|
                        0 <= j0 < es.drop_first().len() && sweep(es.drop_first(), now)[i - 1]
                            == es.drop_first()[j0];
                    assert(sw[i] == es[j0 + 1]);
                } else {
                    assert(sw[0] == es[0]);
                }
            }
        }
    }
}

/// One pass of the size-based eviction: walk the entries in order, and while
/// the cache is at or over its limit remove those whose policy allows it.
pub open spec fn evict_from(es: Seq<EntryV>, i: int, max: int) -> Seq<EntryV>
    decreases es.len() + es.len() - i,
    when 0 <= i
{
    if i >= es.len() {
        es
    } else if es[i].eviction_policy == EvictionPolicy::WhenMaxSizeReached {
        let rest = es.remove(i);
        if total_size(rest) < max {
            rest
        } else {
            evict_from(rest, i, max)
        }
    } else {
        evict_from(es, i + 1, max)
    }
}

/// The entries after the size check that precedes an insertion of
/// `new_size` fresh bytes.
pub open spec fn after_size_check(es: Seq<EntryV>, new_size: int, max: int) -> Seq<EntryV> {
    if total_size(es) + new_size > max {
        evict_from(es, 0, max)
    } else {
        es
    }
}

/// Entries surviving `evict_from` all stood in the input, and the total
/// never grows.
pub proof fn lemma_evict_props(es: Seq<EntryV>, i: int, max: int)
    requires
        0 <= i,
    ensures
        total_size(evict_from(es, i, max)) <= total_size(es),
        forall|k: int|
            0 <= k < evict_from(es, i, max).len() ==> exists|j: int|
                0 <= j < es.len() && #[trigger] evict_from(es, i, max)[k] == es[j],
    decreases es.len() + es.len() - i,
{
    if i >= es.len() {
    } else if es[i].eviction_policy == EvictionPolicy::WhenMaxSizeReached {
        lemma_total_size_remove(es, i);
        lemma_total_size_parts(es);
        let rest = es.remove(i);
        if total_size(rest) < max {
            assert forall|k: int|
                0 <= k < rest.len() implies exists|j: int| 0 <= j < es.len() && #[trigger] rest[k]
                == es[j] by {
                if k < i {
                    assert(rest[k] == es[k]);
                } else {
                    assert(rest[k] == es[k + 1]);
                }
            }
        } else {
            lemma_evict_props(rest, i, max);
            let out = evict_from(es, i, max);
            assert forall|k: int|
                0 <= k < out.len() implies exists|j: int| 0 <= j < es.len() && #[trigger] out[k]
                == es[j] by {
                let j0 = choose|j0: int|
                    0 <= j0 < rest.len() && evict_from(rest, i, max)[k] == rest[j0];
                if j0 < i {
                    assert(out[k] == es[j0]);
                } else {
                    assert(rest[j0] == es[j0 + 1]);
                }
            }
        }
    } else {
        lemma_evict_props(es, i + 1, max);
    }
}

} // verus!

verus! {

// ---------------------------------------------------------------------------
// Checksums, MIME guessing, and the served response
// ---------------------------------------------------------------------------

/// The SHA-1 digest of a byte sequence.
pub uninterp spec fn sha1_of(data: Seq<u8>) -> Seq<u8>;

/// Relies on `sha1::Sha1` (`update` then `digest`): the digest is twenty
/// bytes and depends on the input bytes alone.
#[verifier::external_body]
fn sha1_digest(data: &Vec<u8>) -> (r: Vec<u8>)
    ensures
        r@ == sha1_of(data@),
        r@.len() == 20,
{
    let mut h = sha1::Sha1::new();
    h.update(data.as_slice());
    h.digest().bytes().to_vec()
}

/// The MIME type guessed from a path's extension.
pub uninterp spec fn mime_of(path: Seq<u8>) -> Option<Seq<u8>>;

/// Relies on `mime_guess::from_path(..).first_raw()`: the guess comes from a
/// static table keyed by the path's extension, so it depends on the path
/// alone.
#[verifier::external_body]
fn guess_mime(path: &str) -> (r: Option<String>)
    ensures
        match r {
            Some(m) => mime_of(path.spec_bytes()) == Some(crate::strutil::str_bytes(m)),
            None => mime_of(path.spec_bytes()) is None,
        },
{
    mime_guess::from_path(path).first_raw().map(|s| s.to_string())
}

/// The response served for content with the given checksum: not-modified
/// with an empty body when the client's tag equals the checksum, otherwise
/// the content with its type and tag; a guessed type that cannot stand in a
/// header is a server error.
pub open spec fn created_response(
    data: Seq<u8>,
    mime: Option<Seq<u8>>,
    cksum: Seq<u8>,
    etag: Option<Seq<u8>>,
) -> Result<crate::response::ResponseV, int> {
    let hex = crate::strutil::hex_of(cksum);
    if etag matches Some(t) && t == hex {
        Ok(
            crate::response::ResponseV {
                status: 304,
                version: crate::request::Version::Http11,
                headers: Seq::empty(),
                body: None,
            },
        )
    } else if mime matches Some(m) && !crate::response::is_header_value_text(m) {
        Err(500)
    } else {
        let type_headers: Seq<(Seq<u8>, Seq<u8>)> = match mime {
            Some(m) => seq![("content-type".spec_bytes(), m)],
            None => Seq::empty(),
        };
        Ok(
            crate::response::ResponseV {
                status: 200,
                version: crate::request::Version::Http11,
                headers: type_headers + seq![("etag".spec_bytes(), hex)],
                body: Some(data),
            },
        )
    }
}

/// Hex digits are printable ASCII.
proof fn lemma_hex_header_ok(s: Seq<u8>)
    ensures
        crate::response::is_header_value_text(crate::strutil::hex_of(s)),
        forall|i: int|
            0 <= i < crate::strutil::hex_of(s).len() ==> #[trigger] crate::strutil::hex_of(s)[i]
                < 128,
{
    let h = crate::strutil::hex_of(s);
    assert forall|i: int| 0 <= i < h.len() implies (h[i] == 9 || (32 <= h[i] <= 126)) && h[i]
        < 128 by {
        if i % 2 == 0 {
            assert(h[i] == crate::strutil::hex_digit(s[i / 2] as int / 16));
        } else {
            assert(h[i] == crate::strutil::hex_digit(s[i / 2] as int % 16));
        }
    }
}

/// Builds the served response.
fn create_response(
    data: Vec<u8>,
    mime: Option<String>,
    checksum: &Vec<u8>,
    etag: Option<&str>,
) -> (r: Result<crate::response::Response, crate::error::HttpError>)
    ensures
        ({
            let mv = match mime {
                Some(m) => Some(crate::strutil::str_bytes(m)),
                None => None,
            };
            let ev = match etag {
                Some(t) => Some(t.spec_bytes()),
                None => None,
            };
            match (r, created_response(data@, mv, checksum@, ev)) {
                (Ok(resp), Ok(rv)) => resp@ == rv,
                (Err(e), Err(code)) => e.status.code == code,
                _ => false,
            }
        }),
{
    let ghost mv = match &mime {
        Some(m) => Some(crate::strutil::str_bytes(*m)),
        None => None,
    };
    let hexs = crate::strutil::hex_upper(checksum);
    proof {
        lemma_hex_header_ok(checksum@);
        crate::strutil::lemma_ascii_chars_bytes(crate::strutil::hex_of(checksum@));
        assert(crate::strutil::str_bytes(hexs) == crate::strutil::hex_of(checksum@));
    }
    let tag_matches = match etag {
        Some(t) => crate::strutil::bytes_eq(t.as_bytes(), hexs.as_str().as_bytes()),
        None => false,
    };
    if tag_matches {
        let resp = crate::response::Response {
            status: crate::error::StatusCode::not_modified(),
            version: crate::request::Version::Http11,
            headers: Vec::new(),
            body: crate::body::Body(None),
        };
        proof {
            assert(resp@.headers =~= Seq::<(Seq<u8>, Seq<u8>)>::empty());
        }
        return Ok(resp);
    }
    let mut headers: Vec<(String, String)> = Vec::new();
    match mime {
        Some(m) => {
            if !crate::response::check_header_value(m.as_str()) {
                return Err(
                    crate::error::HttpError::internal_server_error("invalid header value"),
                );
            }
            headers.push((String::from_str("content-type"), m));
        },
        None => {},
    }
    headers.push((String::from_str("etag"), hexs));
    let resp = crate::response::Response {
        status: crate::error::StatusCode::ok(),
        version: crate::request::Version::Http11,
        headers,
        body: crate::body::Body(Some(data)),
    };
    proof {
        let type_headers: Seq<(Seq<u8>, Seq<u8>)> = match mv {
            Some(m) => seq![("content-type".spec_bytes(), m)],
            None => Seq::<(Seq<u8>, Seq<u8>)>::empty(),
        };
        assert(resp@.headers =~= type_headers + seq![
            ("etag".spec_bytes(), crate::strutil::hex_of(checksum@)),
        ]);
    }
    Ok(resp)
}

} // verus!

verus! {

// ---------------------------------------------------------------------------
// The cache itself
// ---------------------------------------------------------------------------

/// What the surrounding program learned from the file system about the
/// requested file.
pub enum FileProbe {
    /// The file does not exist.
    Missing,
    /// The file exists but could not be read or have its metadata taken.
    Unreadable,
    /// The file's modification stamp (milliseconds) and full content.
    Found { mtime: u64, content: Vec<u8> },
}

/// The mathematical value of a probe.
pub enum FileProbeV {
    Missing,
    Unreadable,
    Found { mtime: int, content: Seq<u8> },
}

impl View for FileProbe {
    type V = FileProbeV;

    open spec fn view(&self) -> FileProbeV {
        match self {
            FileProbe::Missing => FileProbeV::Missing,
            FileProbe::Unreadable => FileProbeV::Unreadable,
            FileProbe::Found { mtime, content } => FileProbeV::Found {
                mtime: *mtime as int,
                content: content@,
            },
        }
    }
}

/// What one cache step leaves behind and answers.
#[verifier::ext_equal]
pub struct CacheStepV {
    pub entries: Seq<EntryV>,
    pub resp: Result<crate::response::ResponseV, int>,
}

/// The entry a load writes.
pub open spec fn loaded_entry(
    path: Seq<u8>,
    content: Seq<u8>,
    mtime: int,
    now: int,
    cd: ChangeDetection,
    ep: EvictionPolicy,
) -> EntryV {
    EntryV {
        path,
        data: content,
        checksum: sha1_of(content),
        last_touched: now,
        last_modification: mtime,
        change_detection: cd,
        eviction_policy: ep,
        mime_type: mime_of(path),
    }
}

/// A fresh load: reject oversize content, run the size eviction, insert when
/// the content fits and caching is wanted, and serve the fresh bytes.
pub open spec fn spec_load(
    es: Seq<EntryV>,
    max: int,
    path: Seq<u8>,
    content: Seq<u8>,
    mtime: int,
    cd: ChangeDetection,
    ep: EvictionPolicy,
    etag: Option<Seq<u8>>,
    now: int,
) -> CacheStepV {
    if content.len() > max {
        CacheStepV { entries: es, resp: Err(400) }
    } else {
        let es2 = after_size_check(es, content.len() as int, max);
        let insert = total_size(es2) + content.len() < max && cd != ChangeDetection::NoCache;
        let ne = loaded_entry(path, content, mtime, now, cd, ep);
        let es3 = if insert {
            match find_path(es2, path) {
                Some(j) => es2.update(j, ne),
                None => es2.push(ne),
            }
        } else {
            es2
        };
        CacheStepV {
            entries: es3,
            resp: created_response(content, mime_of(path), sha1_of(content), etag),
        }
    }
}

/// Whether a hit entry is served from the cache (after its touch), per its
/// stored change-detection policy.
pub open spec fn entry_serves(e: EntryV, now: int, mtime: int) -> bool {
    match e.change_detection {
        ChangeDetection::Timed(t) => sat_sub(now, e.last_touched) <= t,
        ChangeDetection::Never => true,
        ChangeDetection::FileInfoChange => mtime == e.last_modification,
        ChangeDetection::NoCache => false,
    }
}

/// One whole cache step: the time sweep, the hit-or-miss decision, and the
/// load when one is owed.
pub open spec fn spec_get_or_load(
    es: Seq<EntryV>,
    max: int,
    path: Seq<u8>,
    probe: FileProbeV,
    cd: ChangeDetection,
    ep: EvictionPolicy,
    etag: Option<Seq<u8>>,
    now: int,
) -> CacheStepV {
    let es0 = sweep(es, now);
    match find_path(es0, path) {
        Some(i) => match probe {
            FileProbeV::Found { mtime, content } => {
                let e0 = es0[i];
                let e1 = if mtime == e0.last_modification {
                    EntryV { last_touched: now, ..e0 }
                } else {
                    e0
                };
                let es1 = es0.update(i, e1);
                if entry_serves(e1, now, mtime) {
                    CacheStepV {
                        entries: es1,
                        resp: created_response(e1.data, e1.mime_type, e1.checksum, etag),
                    }
                } else {
                    spec_load(es1, max, path, content, mtime, cd, ep, etag, now)
                }
            },
            _ => CacheStepV { entries: es0, resp: Err(500) },
        },
        None => match probe {
            FileProbeV::Missing => CacheStepV { entries: es0, resp: Err(404) },
            FileProbeV::Unreadable => CacheStepV { entries: es0, resp: Err(500) },
            FileProbeV::Found { mtime, content } => spec_load(
                es0,
                max,
                path,
                content,
                mtime,
                cd,
                ep,
                etag,
                now,
            ),
        },
    }
}

/// The static-asset cache: loaded files keyed by path, with bounded total
/// size.
pub struct StaticFileCache {
    pub entries: Vec<CacheEntry>,
    pub max_size: usize,
}

impl View for StaticFileCache {
    type V = Seq<EntryV>;

    open spec fn view(&self) -> Seq<EntryV> {
        self.entries@.map_values(|e: CacheEntry| e@)
    }
}

impl StaticFileCache {
    /// The cached bytes never outgrow the configured maximum.
    pub open spec fn wf(&self) -> bool {
        total_size(self@) <= self.max_size
    }

    /// An empty cache with the default 50,000,000-byte bound.
    pub fn new() -> (r: StaticFileCache)
        ensures
            r@.len() == 0,
            r.max_size == 50_000_000usize,
            r.wf(),
    {
        let r = StaticFileCache { entries: Vec::new(), max_size: 50_000_000 };
        proof {
            assert(r@ =~= Seq::<EntryV>::empty());
        }
        r
    }

    /// An empty cache with the given bound in bytes.
    pub fn with_max_size(size: usize) -> (r: StaticFileCache)
        ensures
            r@.len() == 0,
            r.max_size == size,
            r.wf(),
    {
        let r = StaticFileCache { entries: Vec::new(), max_size: size };
        proof {
            assert(r@ =~= Seq::<EntryV>::empty());
        }
        r
    }

    /// The number of entries, for inspection.
    pub fn entry_count(&self) -> (r: usize)
        ensures
            r == self@.len(),
    {
        self.entries.len()
    }

    /// Whether an entry for the path is cached.
    pub fn contains_path(&self, path: &str) -> (r: bool)
        ensures
            r == (find_path(self@, path.spec_bytes()) is Some),
    {
        proof {
            lemma_find_path_props(self@, path.spec_bytes());
        }
        match self.find_entry(path) {
            Some(_) => true,
            None => false,
        }
    }

    /// Index of the entry for a path.
    fn find_entry(&self, path: &str) -> (r: Option<usize>)
        ensures
            ({
                match find_path(self@, path.spec_bytes()) {
                    Some(i) => r == Some(i as usize),
                    None => r is None,
                }
            }),
    {
        let ghost es = self@;
        let mut i: usize = 0;
        proof {
            lemma_find_path_props(es, path.spec_bytes());
        }
        while i < self.entries.len()
            invariant
                i <= self.entries@.len(),
                es == self@,
                forall|j: int| 0 <= j < i ==> (#[trigger] es[j]).path != path.spec_bytes(),
            decreases self.entries@.len() - i,
        {
            proof {
                assert(es[i as int] == self.entries@[i as int]@);
            }
            if crate::strutil::bytes_eq(
                self.entries[i].path.as_str().as_bytes(),
                path.as_bytes(),
            ) {
                proof {
                    lemma_find_path_props(es, path.spec_bytes());
                    match find_path(es, path.spec_bytes()) {
                        Some(k) => {
                            assert(k <= i);
                            assert(!(k < i));
                        },
                        None => {
                            assert(false);
                        },
                    }
                }
                return Some(i);
            }
            i += 1;
        }
        proof {
            lemma_find_path_props(es, path.spec_bytes());
        }
        None
    }

    /// The total cached bytes.
    fn cache_size(&self) -> (r: usize)
        requires
            self.wf(),
        ensures
            r == total_size(self@),
    {
        let ghost es = self@;
        let mut sum: usize = 0;
        let mut i: usize = 0;
        proof {
            assert(es.skip(0) =~= es);
            lemma_total_size_parts(es);
        }
        while i < self.entries.len()
            invariant
                i <= self.entries@.len(),
                es == self@,
                self.wf(),
                sum + total_size(es.skip(i as int)) == total_size(es),
                sum <= total_size(es) <= self.max_size,
            decreases self.entries@.len() - i,
        {
            proof {
                assert(es.skip(i as int)[0] == es[i as int]);
                assert(es.skip(i as int).drop_first() =~= es.skip(i as int + 1));
                assert(es[i as int] == self.entries@[i as int]@);
                lemma_total_size_parts(es.skip(i as int).drop_first());
            }
            sum = sum + self.entries[i].data.len();
            i += 1;
        }
        proof {
            assert(es.skip(i as int).len() == 0);
        }
        sum
    }

    /// Removes every entry whose idle time has outrun its eviction policy.
    fn sweep_expired(&mut self, now: u64)
        ensures
            final(self)@ == sweep(old(self)@, now as int),
            final(self).max_size == old(self).max_size,
            old(self).wf() ==> final(self).wf(),
    {
        let ghost orig = self@;
        let mut kept: Vec<CacheEntry> = Vec::new();
        let mut rest = Vec::new();
        core::mem::swap(&mut self.entries, &mut rest);
        proof {
            assert(kept@.map_values(|e: CacheEntry| e@) =~= Seq::<EntryV>::empty());
            assert(rest@.map_values(|e: CacheEntry| e@) == orig);
        }
        while rest.len() > 0
            invariant
                sweep(orig, now as int) == kept@.map_values(|e: CacheEntry| e@) + sweep(
                    rest@.map_values(|e: CacheEntry| e@),
                    now as int,
                ),
            decreases rest@.len(),
        {
            let ghost rv = rest@.map_values(|e: CacheEntry| e@);
            let ghost kv = kept@.map_values(|e: CacheEntry| e@);
            let e = rest.remove(0);
            proof {
                assert(rv[0] == e@);
                assert(rest@.map_values(|e2: CacheEntry| e2@) =~= rv.drop_first());
            }
            let keep = match e.eviction_policy {
                EvictionPolicy::AfterLastAccess(d) => {
                    let idle = if now >= e.last_touched {
                        now - e.last_touched
                    } else {
                        0
                    };
                    !(idle > d)
                },
                _ => true,
            };
            if keep {
                proof {
                    assert(!expired(e@, now as int));
                }
                kept.push(e);
                proof {
                    crate::strutil::lemma_map_push(kept@.drop_last(), |e2: CacheEntry| e2@, kept@.last());
                    assert(kept@.map_values(|e2: CacheEntry| e2@) =~= kv.push(rv[0]));
                    assert(kv + (seq![rv[0]] + sweep(rv.drop_first(), now as int)) =~= kv.push(
                        rv[0],
                    ) + sweep(rv.drop_first(), now as int));
                }
            } else {
                proof {
                    assert(expired(e@, now as int));
                }
            }
        }
        core::mem::swap(&mut self.entries, &mut kept);
        proof {
            assert(rest@.map_values(|e: CacheEntry| e@).len() == 0);
            assert(sweep(rest@.map_values(|e: CacheEntry| e@), now as int) =~= Seq::<
                EntryV,
            >::empty());
            assert(self@ =~= sweep(orig, now as int));
            if old(self).wf() {
                lemma_sweep_props(orig, now as int);
            }
        }
    }
}

} // verus!

verus! {

impl StaticFileCache {
    /// Runs the size eviction that precedes inserting `new_size` fresh
    /// bytes.
    fn run_size_check(&mut self, new_size: usize)
        requires
            old(self).wf(),
            new_size <= old(self).max_size,
        ensures
            final(self)@ == after_size_check(old(self)@, new_size as int, old(self).max_size as int),
            final(self).max_size == old(self).max_size,
            final(self).wf(),
    {
        let ghost max = self.max_size as int;
        let total = self.cache_size();
        if !(total > self.max_size - new_size) {
            // nothing to do: the new bytes already fit
            proof {
                assert(!(total_size(self@) + new_size > max));
            }
            return ;
        }
        proof {
            assert(total_size(self@) + new_size > max);
        }
        let ghost target = evict_from(self@, 0, max);
        let mut i: usize = 0;
        while i < self.entries.len()
            invariant
                self.max_size == old(self).max_size,
                i <= self.entries@.len(),
                self.wf(),
                evict_from(self@, i as int, max) == target,
                target == after_size_check(old(self)@, new_size as int, max),
                max == self.max_size as int,
            decreases self.entries@.len() + self.entries@.len() - i,
        {
            proof {
                assert(self@[i as int] == self.entries@[i as int]@);
            }
            let evictable = match self.entries[i].eviction_policy {
                EvictionPolicy::WhenMaxSizeReached => true,
                _ => false,
            };
            if evictable {
                let ghost before = self@;
                self.entries.remove(i);
                proof {
                    assert(self@ =~= before.remove(i as int));
                    lemma_total_size_remove(before, i as int);
                    lemma_total_size_parts(before);
                }
                let size_now = self.cache_size();
                if size_now < self.max_size {
                    proof {
                        assert(target == self@);
                    }
                    return ;
                }
            } else {
                i += 1;
            }
        }
        proof {
            assert(i >= self.entries@.len());
            assert(evict_from(self@, i as int, max) == self@);
        }
    }

    /// Loads fresh content into the cache: rejects oversize content, evicts
    /// to make room, stores the entry unless caching is off or the room was
    /// not found, and serves the fresh bytes.
    /// The client-error message for an oversize file, naming the size read
    /// and the configured limit.
    fn oversize_message(size: usize, max: usize) -> (r: String)
        ensures
            crate::strutil::str_bytes(r) == "file of ".spec_bytes()
                + crate::strutil::dec_repr(size as int)
                + " bytes exceeds the configured maximum of ".spec_bytes()
                + crate::strutil::dec_repr(max as int) + " bytes".spec_bytes(),
    {
        let mut bytes: Vec<u8> = "file of ".as_bytes_vec();
        let mut size_digits = crate::strutil::usize_to_dec(size);
        bytes.append(&mut size_digits);
        let mut middle = " bytes exceeds the configured maximum of ".as_bytes_vec();
        bytes.append(&mut middle);
        let mut max_digits = crate::strutil::usize_to_dec(max);
        bytes.append(&mut max_digits);
        let mut tail = " bytes".as_bytes_vec();
        bytes.append(&mut tail);
        proof {
            vstd::utf8::encode_utf8_valid_utf8("file of "@);
            vstd::utf8::encode_utf8_valid_utf8(" bytes exceeds the configured maximum of "@);
            vstd::utf8::encode_utf8_valid_utf8(" bytes"@);
            crate::strutil::lemma_dec_repr_ascii(size as int);
            crate::strutil::lemma_dec_repr_ascii(max as int);
            crate::strutil::lemma_ascii_decode(crate::strutil::dec_repr(size as int));
            crate::strutil::lemma_ascii_decode(crate::strutil::dec_repr(max as int));
            broadcast use vstd::utf8::valid_utf8_concat;

            assert(bytes@ =~= "file of ".spec_bytes() + (crate::strutil::dec_repr(size as int)
                + (" bytes exceeds the configured maximum of ".spec_bytes()
                + (crate::strutil::dec_repr(max as int) + " bytes".spec_bytes()))));
            let p1 = crate::strutil::dec_repr(max as int) + " bytes".spec_bytes();
            assert(vstd::utf8::valid_utf8(p1));
            let p2 = " bytes exceeds the configured maximum of ".spec_bytes() + p1;
            assert(vstd::utf8::valid_utf8(p2));
            let p3 = crate::strutil::dec_repr(size as int) + p2;
            assert(vstd::utf8::valid_utf8(p3));
            assert(vstd::utf8::valid_utf8("file of ".spec_bytes() + p3));
            assert(vstd::utf8::valid_utf8(bytes@));
            assert(bytes@ =~= "file of ".spec_bytes() + crate::strutil::dec_repr(size as int)
                + " bytes exceeds the configured maximum of ".spec_bytes()
                + crate::strutil::dec_repr(max as int) + " bytes".spec_bytes());
        }
        crate::strutil::bytes_to_string(bytes)
    }

    fn load_and_store(
        &mut self,
        path: &str,
        content: Vec<u8>,
        mtime: u64,
        change_detection: ChangeDetection,
        eviction: EvictionPolicy,
        etag: Option<&str>,
        now: u64,
    ) -> (r: Result<crate::response::Response, crate::error::HttpError>)
        requires
            old(self).wf(),
        ensures
            ({
                let ev = match etag {
                    Some(t) => Some(t.spec_bytes()),
                    None => None,
                };
                let step = spec_load(
                    old(self)@,
                    old(self).max_size as int,
                    path.spec_bytes(),
                    content@,
                    mtime as int,
                    change_detection,
                    eviction,
                    ev,
                    now as int,
                );
                &&& final(self)@ == step.entries
                &&& final(self).max_size == old(self).max_size
                &&& final(self).wf()
                &&& match (r, step.resp) {
                    (Ok(resp), Ok(rv)) => resp@ == rv,
                    (Err(e), Err(code)) => e.status.code == code,
                    _ => false,
                }
            }),
    {
        if content.len() > self.max_size {
            let msg = Self::oversize_message(content.len(), self.max_size);
            return Err(crate::error::HttpError::bad_request(msg.as_str()));
        }
        let checksum = sha1_digest(&content);
        let mime = guess_mime(path);
        self.run_size_check(content.len());
        let total = self.cache_size();
        let insert = total < self.max_size - content.len() && !matches!(
            change_detection,
            ChangeDetection::NoCache,
        );
        proof {
            assert((total < self.max_size - content.len()) == (total_size(self@) + content@.len()
                < self.max_size));
        }
        let ghost es2 = self@;
        let ghost specstep = spec_load(
            old(self)@,
            old(self).max_size as int,
            path.spec_bytes(),
            content@,
            mtime as int,
            change_detection,
            eviction,
            match etag {
                Some(t) => Some(t.spec_bytes()),
                None => None,
            },
            now as int,
        );
        proof {
            assert(es2 == after_size_check(
                old(self)@,
                content@.len() as int,
                old(self).max_size as int,
            ));
            assert(insert == (total_size(es2) + content@.len() < old(self).max_size
                && change_detection != ChangeDetection::NoCache));
        }
        if insert {
            let entry = CacheEntry {
                path: String::from_str(path),
                data: content,
                checksum,
                last_touched: now,
                last_modification: mtime,
                change_detection,
                eviction_policy: eviction,
                mime_type: match &mime {
                    Some(m) => Some(m.clone()),
                    None => None,
                },
            };
            let ghost ne = entry@;
            proof {
                assert(ne =~= loaded_entry(
                    path.spec_bytes(),
                    content@,
                    mtime as int,
                    now as int,
                    change_detection,
                    eviction,
                ));
            }
            let data_copy = crate::strutil::clone_bytes(&entry.data);
            let cksum_copy = crate::strutil::clone_bytes(&entry.checksum);
            match self.find_entry(path) {
                Some(j) => {
                    let ghost before = self@;
                    proof {
                        assert(before == es2);
                        match find_path(es2, path.spec_bytes()) {
                            Some(i0) => {
                                lemma_find_path_props(es2, path.spec_bytes());
                                assert(find_path(es2, path.spec_bytes()) == Some(i0));
                                assert(0 <= i0 < es2.len());
                                broadcast use vstd::std_specs::vec::axiom_spec_len;

                                assert(es2.len() == self.entries@.len());
                                assert(self.entries.len() == self.entries@.len());
                                assert(self.entries@.len() <= usize::MAX);
                                assert(i0 == j as int);
                            },
                            None => {
                                assert(false);
                            },
                        }
                    }
                    vstd::pervasive::VecAdditionalExecFns::set(&mut self.entries, j, entry);
                    proof {
                        assert(self@ =~= before.update(j as int, ne));
                        lemma_total_size_update(before, j as int, ne);
                        lemma_total_size_parts(before);
                        assert(find_path(es2, path.spec_bytes()) == Some(j as int));
                        assert(specstep.entries == es2.update(j as int, ne));
                        assert(self@ == specstep.entries);
                    }
                },
                None => {
                    let ghost before = self@;
                    self.entries.push(entry);
                    proof {
                        crate::strutil::lemma_map_push(
                            self.entries@.drop_last(),
                            |e2: CacheEntry| e2@,
                            self.entries@.last(),
                        );
                        assert(self@ =~= before.push(ne));
                        lemma_total_size_push(before, ne);
                        assert(find_path(es2, path.spec_bytes()) is None);
                        assert(specstep.entries == es2.push(ne));
                        assert(self@ == specstep.entries);
                    }
                },
            }
            create_response(data_copy, mime, &cksum_copy, etag)
        } else {
            proof {
                assert(self@ == specstep.entries);
            }
            let cksum_copy = crate::strutil::clone_bytes(&checksum);
            create_response(content, mime, &cksum_copy, etag)
        }
    }

    /// Serves the file at `path`: runs the time sweep, serves the cached
    /// bytes when the entry's change-detection policy allows, and otherwise
    /// loads what the probe carried.  A matching client tag turns the answer
    /// into not-modified with an empty body, cached or not.
    pub fn get_or_load(
        &mut self,
        path: &str,
        probe: FileProbe,
        change_detection: ChangeDetection,
        eviction: EvictionPolicy,
        etag: Option<&str>,
        now: u64,
    ) -> (r: Result<crate::response::Response, crate::error::HttpError>)
        requires
            old(self).wf(),
        ensures
            ({
                let ev = match etag {
                    Some(t) => Some(t.spec_bytes()),
                    None => None,
                };
                let step = spec_get_or_load(
                    old(self)@,
                    old(self).max_size as int,
                    path.spec_bytes(),
                    probe@,
                    change_detection,
                    eviction,
                    ev,
                    now as int,
                );
                &&& final(self)@ == step.entries
                &&& final(self).max_size == old(self).max_size
                &&& final(self).wf()
                &&& match (r, step.resp) {
                    (Ok(resp), Ok(rv)) => resp@ == rv,
                    (Err(e), Err(code)) => e.status.code == code,
                    _ => false,
                }
            }),
    {
        self.sweep_expired(now);
        let ghost es0 = self@;
        match self.find_entry(path) {
            Some(i) => {
                proof {
                    match find_path(es0, path.spec_bytes()) {
                        Some(i0) => {
                            lemma_find_path_props(es0, path.spec_bytes());
                            assert(0 <= i0 < es0.len());
                            broadcast use vstd::std_specs::vec::axiom_spec_len;

                            assert(self.entries.len() == self.entries@.len());
                            assert(i0 == i as int);
                        },
                        None => {
                            assert(false);
                        },
                    }
                }
                match probe {
                    FileProbe::Found { mtime, content } => {
                        let ghost e0 = es0[i as int];
                        let entry = self.entries.remove(i);
                        let entry = if mtime == entry.last_modification {
                            CacheEntry { last_touched: now, ..entry }
                        } else {
                            entry
                        };
                        let ghost e1 = entry@;
                        proof {
                            if mtime as int == e0.last_modification {
                                assert(e1 =~= (EntryV { last_touched: now as int, ..e0 }));
                            } else {
                                assert(e1 =~= e0);
                            }
                        }
                        let serve = match entry.change_detection {
                            ChangeDetection::Timed(t) => {
                                let idle = if now >= entry.last_touched {
                                    now - entry.last_touched
                                } else {
                                    0
                                };
                                !(idle > t)
                            },
                            ChangeDetection::Never => true,
                            ChangeDetection::FileInfoChange => mtime == entry.last_modification,
                            ChangeDetection::NoCache => false,
                        };
                        let data_copy = crate::strutil::clone_bytes(&entry.data);
                        let cksum_copy = crate::strutil::clone_bytes(&entry.checksum);
                        let mime_copy = match &entry.mime_type {
                            Some(m) => Some(m.clone()),
                            None => None,
                        };
                        let ghost before_ins = self@;
                        self.entries.insert(i, entry);
                        proof {
                            assert(before_ins =~= es0.remove(i as int));
                            assert(self@ =~= es0.update(i as int, e1));
                            lemma_total_size_update(es0, i as int, e1);
                            lemma_total_size_parts(es0);
                            if old(self).wf() {
                                lemma_sweep_props(old(self)@, now as int);
                            }
                        }
                        if serve {
                            create_response(data_copy, mime_copy, &cksum_copy, etag)
                        } else {
                            self.load_and_store(
                                path,
                                content,
                                mtime,
                                change_detection,
                                eviction,
                                etag,
                                now,
                            )
                        }
                    },
                    _ => Err(
                        crate::error::HttpError::internal_server_error(
                            "file info could not be read",
                        ),
                    ),
                }
            },
            None => match probe {
                FileProbe::Missing => Err(crate::error::HttpError::not_found("file not found")),
                FileProbe::Unreadable => Err(
                    crate::error::HttpError::internal_server_error("file could not be read"),
                ),
                FileProbe::Found { mtime, content } => {
                    proof {
                        if old(self).wf() {
                            lemma_sweep_props(old(self)@, now as int);
                        }
                    }
                    self.load_and_store(
                        path,
                        content,
                        mtime,
                        change_detection,
                        eviction,
                        etag,
                        now,
                    )
                },
            },
        }
    }
}

} // verus!

verus! {

// ---------------------------------------------------------------------------
// Directory-route path checks
// ---------------------------------------------------------------------------

/// The filesystem path a directory route serves for a file parameter: the
/// base, a slash, and the parameter.
pub fn resolve_child(base: &str, name: &str) -> (r: String)
    ensures
        crate::strutil::str_bytes(r) == base.spec_bytes() + seq![47u8] + name.spec_bytes(),
{
    let mut bytes = base.as_bytes_vec();
    bytes.push(47);
    let mut rest = name.as_bytes_vec();
    bytes.append(&mut rest);
    proof {
        vstd::utf8::encode_utf8_valid_utf8(base@);
        vstd::utf8::encode_utf8_valid_utf8(name@);
        crate::strutil::lemma_ascii_decode(seq![47u8]);
        broadcast use vstd::utf8::valid_utf8_concat;

        assert(bytes@ =~= base.spec_bytes() + (seq![47u8] + name.spec_bytes()));
        assert(bytes@ =~= base.spec_bytes() + seq![47u8] + name.spec_bytes());
        assert(vstd::utf8::valid_utf8(seq![47u8] + name.spec_bytes()));
        assert(vstd::utf8::valid_utf8(base.spec_bytes() + (seq![47u8] + name.spec_bytes())));
        assert(vstd::utf8::valid_utf8(bytes@));
    }
    crate::strutil::bytes_to_string(bytes)
}

/// Whether a canonical child path stays inside a canonical base directory:
/// the base's segments must lead the child's.
pub fn path_within_base(child: &str, base: &str) -> (r: bool)
    ensures
        r == crate::router::path_parts(base.spec_bytes()).is_prefix_of(
            crate::router::path_parts(child.spec_bytes()),
        ),
{
    let cparts = crate::router::split_path(child.as_bytes());
    let bparts = crate::router::split_path(base.as_bytes());
    let ghost cv = crate::strutil::seqs_of(cparts@);
    let ghost bv = crate::strutil::seqs_of(bparts@);
    if bparts.len() > cparts.len() {
        proof {
            assert(!bv.is_prefix_of(cv));
        }
        return false;
    }
    let mut i: usize = 0;
    while i < bparts.len()
        invariant
            i <= bparts@.len() <= cparts@.len(),
            cv == crate::strutil::seqs_of(cparts@),
            bv == crate::strutil::seqs_of(bparts@),
            cv == crate::router::path_parts(child.spec_bytes()),
            bv == crate::router::path_parts(base.spec_bytes()),
            forall|j: int| 0 <= j < i ==> bv[j] == cv[j],
        decreases bparts@.len() - i,
    {
        proof {
            assert(bv[i as int] == bparts@[i as int]@);
            assert(cv[i as int] == cparts@[i as int]@);
        }
        if !crate::strutil::bytes_eq(bparts[i].as_slice(), cparts[i].as_slice()) {
            proof {
                assert(!bv.is_prefix_of(cv));
            }
            return false;
        }
        i += 1;
    }
    proof {
        assert(bv =~= cv.subrange(0, bv.len() as int));
        assert(bv.is_prefix_of(cv));
    }
    true
}

} // verus!

verus! {

// ---------------------------------------------------------------------------
// Laws of the cache
// ---------------------------------------------------------------------------

/// The entries whose policy keeps them out of size-based eviction.
pub open spec fn unevictable_of(es: Seq<EntryV>) -> Seq<EntryV>
    decreases es.len(),
{
    if es.len() == 0 {
        es
    } else if es[0].eviction_policy != EvictionPolicy::WhenMaxSizeReached {
        seq![es[0]] + unevictable_of(es.drop_first())
    } else {
        unevictable_of(es.drop_first())
    }
}

proof fn lemma_unevictable_remove(es: Seq<EntryV>, i: int)
    requires
        0 <= i < es.len(),
        es[i].eviction_policy == EvictionPolicy::WhenMaxSizeReached,
    ensures
        unevictable_of(es.remove(i)) == unevictable_of(es),
    decreases es.len(),
{
    if i == 0 {
        assert(es.remove(0) =~= es.drop_first());
    } else {
        assert(es.remove(i)[0] == es[0]);
        assert(es.remove(i).drop_first() =~= es.drop_first().remove(i - 1));
        lemma_unevictable_remove(es.drop_first(), i - 1);
    }
}

/// Law: the size-based eviction removes only entries whose policy is
/// `WhenMaxSizeReached`; every other entry stays, in order.
pub proof fn lemma_eviction_spares_protected_entries(es: Seq<EntryV>, i: int, max: int)
    requires
        0 <= i,
    ensures
        unevictable_of(evict_from(es, i, max)) == unevictable_of(es),
    decreases es.len() + es.len() - i,
{
    if i >= es.len() {
    } else if es[i].eviction_policy == EvictionPolicy::WhenMaxSizeReached {
        let rest = es.remove(i);
        lemma_unevictable_remove(es, i);
        if total_size(rest) < max {
        } else {
            lemma_eviction_spares_protected_entries(rest, i, max);
        }
    } else {
        lemma_eviction_spares_protected_entries(es, i + 1, max);
    }
}

/// Law: a client tag equal to the served content's checksum turns the
/// response into not-modified with an empty body — cached or not, since
/// every served response goes through the same construction.
pub proof fn lemma_matching_etag_not_modified(
    data: Seq<u8>,
    mime: Option<Seq<u8>>,
    cksum: Seq<u8>,
)
    ensures
        created_response(data, mime, cksum, Some(crate::strutil::hex_of(cksum))) == Ok::<
            crate::response::ResponseV,
            int,
        >(
            crate::response::ResponseV {
                status: 304,
                version: crate::request::Version::Http11,
                headers: Seq::empty(),
                body: None,
            },
        ),
{
}

/// Law: under change detection `Never`, once an entry is cached the served
/// response does not depend on what the file now holds: any two probes that
/// find the file get the same answer.
pub proof fn lemma_never_ignores_file_changes(
    es: Seq<EntryV>,
    max: int,
    path: Seq<u8>,
    cd: ChangeDetection,
    ep: EvictionPolicy,
    etag: Option<Seq<u8>>,
    now: int,
    m1: int,
    c1: Seq<u8>,
    m2: int,
    c2: Seq<u8>,
)
    requires
        ({
            let es0 = sweep(es, now);
            &&& find_path(es0, path) is Some
            &&& es0[find_path(es0, path)->Some_0].change_detection == ChangeDetection::Never
        }),
    ensures
        spec_get_or_load(
            es,
            max,
            path,
            FileProbeV::Found { mtime: m1, content: c1 },
            cd,
            ep,
            etag,
            now,
        ).resp == spec_get_or_load(
            es,
            max,
            path,
            FileProbeV::Found { mtime: m2, content: c2 },
            cd,
            ep,
            etag,
            now,
        ).resp,
{
    let es0 = sweep(es, now);
    let i = find_path(es0, path)->Some_0;
    lemma_find_path_props(es0, path);
    let e0 = es0[i];
    let e11 = if m1 == e0.last_modification {
        EntryV { last_touched: now, ..e0 }
    } else {
        e0
    };
    let e12 = if m2 == e0.last_modification {
        EntryV { last_touched: now, ..e0 }
    } else {
        e0
    };
    assert(entry_serves(e11, now, m1));
    assert(entry_serves(e12, now, m2));
    assert(e11.data == e12.data && e11.mime_type == e12.mime_type && e11.checksum == e12.checksum);
}

} // verus!

verus! {

/// Where a matching entry stands first, `find_path` finds it.
pub proof fn lemma_find_path_is(es: Seq<EntryV>, p: Seq<u8>, j: int)
    requires
        0 <= j <= es.len(),
        forall|k: int| 0 <= k < j ==> (#[trigger] es[k]).path != p,
        j < es.len() ==> es[j].path == p,
        j == es.len() ==> forall|k: int| 0 <= k < es.len() ==> (#[trigger] es[k]).path != p,
    ensures
        find_path(es, p) == if j < es.len() {
            Some(j)
        } else {
            None::<int>
        },
    decreases j,
{
    if es.len() == 0 {
    } else if j == 0 {
    } else {
        assert forall|k: int| 0 <= k < j - 1 implies (#[trigger] es.drop_first()[k]).path
            != p by {
            assert(es.drop_first()[k] == es[k + 1]);
        }
        if j == es.len() {
            assert forall|k: int|
                0 <= k < es.drop_first().len() implies (#[trigger] es.drop_first()[k]).path
                != p by {
                assert(es.drop_first()[k] == es[k + 1]);
            }
        }
        lemma_find_path_is(es.drop_first(), p, j - 1);
    }
}

/// Law: under change detection `FileInfoChange`, a changed modification
/// stamp makes the cache read the file again: the answer serves the probe's
/// current content, and when the fresh bytes fit (and caching is on) the
/// entry is refreshed in place with the new data, checksum and stamp.
pub proof fn lemma_file_change_reloads(
    es: Seq<EntryV>,
    max: int,
    path: Seq<u8>,
    cd: ChangeDetection,
    ep: EvictionPolicy,
    etag: Option<Seq<u8>>,
    now: int,
    mtime: int,
    content: Seq<u8>,
)
    requires
        ({
            let es0 = sweep(es, now);
            &&& find_path(es0, path) is Some
            &&& es0[find_path(es0, path)->Some_0].change_detection
                == ChangeDetection::FileInfoChange
            &&& mtime != es0[find_path(es0, path)->Some_0].last_modification
        }),
        content.len() <= max,
    ensures
        ({
            let step = spec_get_or_load(
                es,
                max,
                path,
                FileProbeV::Found { mtime, content },
                cd,
                ep,
                etag,
                now,
            );
            let es2 = after_size_check(sweep(es, now), content.len() as int, max);
            &&& step.resp == created_response(content, mime_of(path), sha1_of(content), etag)
            &&& (total_size(es2) + content.len() < max && cd != ChangeDetection::NoCache) ==> {
                &&& find_path(step.entries, path) is Some
                &&& step.entries[find_path(step.entries, path)->Some_0] == loaded_entry(
                    path,
                    content,
                    mtime,
                    now,
                    cd,
                    ep,
                )
            }
        }),
{
    let es0 = sweep(es, now);
    let i = find_path(es0, path)->Some_0;
    lemma_find_path_props(es0, path);
    let e0 = es0[i];
    assert(!entry_serves(e0, now, mtime));
    let es1 = es0.update(i, e0);
    assert(es1 =~= es0);
    let es2 = after_size_check(es0, content.len() as int, max);
    let ne = loaded_entry(path, content, mtime, now, cd, ep);
    if total_size(es2) + content.len() < max && cd != ChangeDetection::NoCache {
        lemma_find_path_props(es2, path);
        match find_path(es2, path) {
            Some(j) => {
                let es3 = es2.update(j, ne);
                assert forall|k: int| 0 <= k < j implies (#[trigger] es3[k]).path != path by {
                    assert(es3[k] == es2[k]);
                }
                lemma_find_path_is(es3, path, j);
            },
            None => {
                let es3 = es2.push(ne);
                assert forall|k: int|
                    0 <= k < es2.len() implies (#[trigger] es3[k]).path != path by {
                    assert(es3[k] == es2[k]);
                }
                assert(es3[es2.len() as int].path == path);
                lemma_find_path_is(es3, path, es2.len() as int);
            },
        }
    }
}

} // verus!
