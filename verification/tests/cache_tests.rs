use rest_in_rust::cache::{StaticFileCache, FileProbe, ChangeDetection, EvictionPolicy};
use rest_in_rust::cache::path_within_base;
use rest_in_rust::error::HttpError;

fn found(mtime: u64, content: &[u8]) -> FileProbe {
    FileProbe::Found { mtime, content: content.to_vec() }
}

#[test]
fn change_detection_never() {
    let mut cache = StaticFileCache::new();
    let needle: &[u8] = b"<h1 class=\"MyStyle\">Hello world</h1>";
    let result = cache.get_or_load(
        "examples/static/index.html",
        found(1, needle),
        ChangeDetection::Never,
        EvictionPolicy::Never,
        None,
        0,
    );
    assert!(result.is_ok());
    let body = result.unwrap().into_vec().unwrap();
    assert_eq!(needle.to_vec(), body);

    // the file changes on disk; the cached bytes are still served
    let result = cache.get_or_load(
        "examples/static/index.html",
        found(2, b"something new"),
        ChangeDetection::Never,
        EvictionPolicy::Never,
        None,
        10,
    );
    let body = result.unwrap().into_vec().unwrap();
    assert_eq!(needle.to_vec(), body);
}

#[test]
fn change_detection_file_modification() {
    let mut cache = StaticFileCache::new();
    let path = "cachetest/test.input";

    let response = cache
        .get_or_load(path, found(1, b"Hello world"), ChangeDetection::FileInfoChange, EvictionPolicy::Never, None, 0)
        .unwrap();
    let message = String::from_utf8(response.into_vec().unwrap()).unwrap();
    assert_eq!("Hello world", message.as_str());

    let response = cache
        .get_or_load(path, found(2, b"Hello Sauerland!"), ChangeDetection::FileInfoChange, EvictionPolicy::Never, None, 1)
        .unwrap();
    let message = String::from_utf8(response.into_vec().unwrap()).unwrap();
    assert_eq!("Hello Sauerland!", message.as_str());
}

#[test]
fn change_detection_no_cache() {
    let mut cache = StaticFileCache::new();
    let path = "examples/static/index.html";
    let result = cache.get_or_load(
        path,
        found(1, b"fresh bytes"),
        ChangeDetection::NoCache,
        EvictionPolicy::Never,
        None,
        0,
    );
    assert!(result.is_ok());
    assert!(!cache.contains_path(path));
    assert_eq!(0, cache.entry_count());
}

#[test]
fn change_detection_timed() {
    let mut cache = StaticFileCache::new();
    let path = "cachetest/test.input";
    let timed = ChangeDetection::Timed(1000);

    let response = cache
        .get_or_load(path, found(1, b"Hello world"), timed, EvictionPolicy::Never, None, 0)
        .unwrap();
    let message = String::from_utf8(response.into_vec().unwrap()).unwrap();
    assert_eq!("Hello world", message.as_str());

    // the file changed, but the entry is younger than the timeout
    let response = cache
        .get_or_load(path, found(2, b"Hello Sauerland!"), timed, EvictionPolicy::Never, None, 10)
        .unwrap();
    let message = String::from_utf8(response.into_vec().unwrap()).unwrap();
    assert_eq!("Hello world", message.as_str());

    // past the timeout the changed file is read again
    let response = cache
        .get_or_load(path, found(2, b"Hello Sauerland!"), timed, EvictionPolicy::Never, None, 1002)
        .unwrap();
    let message = String::from_utf8(response.into_vec().unwrap()).unwrap();
    assert_eq!("Hello Sauerland!", message.as_str());
}

#[test]
fn eviction_size() {
    let mut cache = StaticFileCache::with_max_size(422);

    let first = "examples/static/index.html";
    let second = "examples/static/style/style.css";
    let result = cache.get_or_load(
        first,
        found(1, &[65u8; 350]),
        ChangeDetection::Never,
        EvictionPolicy::WhenMaxSizeReached,
        None,
        0,
    );
    assert!(result.is_ok());

    let result = cache.get_or_load(
        second,
        found(1, &[66u8; 100]),
        ChangeDetection::Never,
        EvictionPolicy::WhenMaxSizeReached,
        None,
        1,
    );
    assert!(result.is_ok());

    assert_eq!(1, cache.entry_count());
    assert!(cache.contains_path(second));
}

#[test]
fn cache_bound_of_422_keeps_only_what_fits() {
    // a 500-byte file cannot enter a 422-byte cache; a small one can
    let mut cache = StaticFileCache::with_max_size(422);

    let result = cache.get_or_load(
        "big.bin",
        found(1, &[0u8; 500]),
        ChangeDetection::Never,
        EvictionPolicy::WhenMaxSizeReached,
        None,
        0,
    );
    let err: HttpError = result.unwrap_err();
    assert_eq!(400, err.status.as_u16());

    let result = cache.get_or_load(
        "small.bin",
        found(1, &[1u8; 60]),
        ChangeDetection::Never,
        EvictionPolicy::WhenMaxSizeReached,
        None,
        1,
    );
    assert!(result.is_ok());
    assert_eq!(1, cache.entry_count());
    assert!(cache.contains_path("small.bin"));
}

#[test]
fn eviction_never_is_kept_when_size_runs_out() {
    let mut cache = StaticFileCache::with_max_size(100);

    cache
        .get_or_load("keep.bin", found(1, &[7u8; 60]), ChangeDetection::Never, EvictionPolicy::Never, None, 0)
        .unwrap();
    // does not fit next to the kept entry, and the kept entry may not be evicted
    cache
        .get_or_load("other.bin", found(1, &[8u8; 60]), ChangeDetection::Never, EvictionPolicy::WhenMaxSizeReached, None, 1)
        .unwrap();

    assert_eq!(1, cache.entry_count());
    assert!(cache.contains_path("keep.bin"));
    assert!(!cache.contains_path("other.bin"));
}

#[test]
fn eviction_time() {
    let mut cache = StaticFileCache::new();

    let first = "examples/static/index.html";
    let second = "examples/static/style/style.css";
    let result = cache.get_or_load(
        first,
        found(1, b"index"),
        ChangeDetection::Never,
        EvictionPolicy::AfterLastAccess(100),
        None,
        0,
    );
    assert!(result.is_ok());

    // 110 ms later the first entry has idled past its policy
    let result = cache.get_or_load(
        second,
        found(1, b"styles"),
        ChangeDetection::Never,
        EvictionPolicy::Never,
        None,
        110,
    );
    assert!(result.is_ok());

    assert_eq!(1, cache.entry_count());
    assert!(cache.contains_path(second));
}

#[test]
fn etag() {
    let mut cache = StaticFileCache::new();
    let path = "examples/static/index.html";

    let result = cache.get_or_load(path, found(1, b"tagged content"), ChangeDetection::Never, EvictionPolicy::Never, None, 0);
    assert!(result.is_ok());
    let response = result.unwrap();
    let tag = response.header("etag").unwrap().to_string();

    let response = cache
        .get_or_load(path, found(1, b"tagged content"), ChangeDetection::Never, EvictionPolicy::Never, Some(&tag), 1)
        .unwrap();
    assert_eq!(304, response.status().as_u16());
    assert!(response.into_vec().is_none());
}

#[test]
fn etag_matches_without_cached_entry() {
    // the tag comparison also applies when nothing is cached
    let mut cache = StaticFileCache::new();
    let result = cache.get_or_load(
        "one.txt",
        found(1, b"payload"),
        ChangeDetection::NoCache,
        EvictionPolicy::Never,
        None,
        0,
    );
    let tag = result.unwrap().header("etag").unwrap().to_string();
    assert_eq!(0, cache.entry_count());

    let response = cache
        .get_or_load("one.txt", found(1, b"payload"), ChangeDetection::NoCache, EvictionPolicy::Never, Some(&tag), 1)
        .unwrap();
    assert_eq!(304, response.status().as_u16());
    assert!(response.into_vec().is_none());
}

#[test]
fn sha1_checksum_of_empty_content() {
    let mut cache = StaticFileCache::new();
    let result = cache
        .get_or_load("empty.txt", found(1, b""), ChangeDetection::Never, EvictionPolicy::Never, None, 0)
        .unwrap();
    assert_eq!(
        "DA39A3EE5E6B4B0D3255BFEF95601890AFD80709",
        result.header("etag").unwrap(),
    );
}

#[test]
fn missing_file_is_not_found() {
    let mut cache = StaticFileCache::new();
    let err = cache
        .get_or_load("gone.txt", FileProbe::Missing, ChangeDetection::Never, EvictionPolicy::Never, None, 0)
        .unwrap_err();
    assert_eq!(404, err.status.as_u16());
}

#[test]
fn unreadable_file_is_a_server_error() {
    let mut cache = StaticFileCache::new();
    let err = cache
        .get_or_load("secret.txt", FileProbe::Unreadable, ChangeDetection::Never, EvictionPolicy::Never, None, 0)
        .unwrap_err();
    assert_eq!(500, err.status.as_u16());
}

#[test]
fn test_path_traversal_directory() {
    // canonicalized, "examples/static/../../Cargo.toml" resolves outside the base
    assert!(!path_within_base("/srv/Cargo.toml", "/srv/examples/static"));
    assert!(path_within_base("/srv/examples/static/css/style.css", "/srv/examples/static"));

    // the directory handler answers not-found for an escaping path
    let within = path_within_base("/srv/Cargo.toml", "/srv/examples/static");
    let result: Result<(), HttpError> = if within {
        Ok(())
    } else {
        Err(HttpError::not_found("../../Cargo.toml"))
    };
    assert!(result.is_err());
    let err = result.unwrap_err();
    assert_eq!(404, err.status.as_u16());
}

#[test]
fn resolve_child_joins_with_a_slash() {
    let joined = rest_in_rust::cache::resolve_child("examples/static", "css/style.css");
    assert_eq!("examples/static/css/style.css", joined.as_str());
}
