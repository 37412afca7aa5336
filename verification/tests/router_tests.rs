use rest_in_rust::router::{Router, InternalRouter, Method};
use rest_in_rust::request::Request;
use rest_in_rust::response::Response;
use rest_in_rust::error::HttpError;
use rest_in_rust::cache::{ChangeDetection, EvictionPolicy};

fn handle(req: &mut Request) -> Result<Response, HttpError> {
    let _ = req;
    Ok(Response::from_text("bla"))
}

#[test]
fn compile_handle_call() {
    let mut router = Router::new();
    router.get("/").unwrap();
    let mut req = Request::default();
    handle(&mut req).unwrap();
}

#[test]
fn get_resolution() {
    let mut router = Router::new();
    router.get("/hello").unwrap();

    let router = InternalRouter::new(router);
    let r = router.resolve(Method::GET, "/helloNone");
    assert!(r.is_none());

    let (route, _) = router.resolve(Method::GET, "/hello").unwrap();
    let mut req = Request::get("/hello").unwrap();
    // the handler registered for the resolved route runs against the request
    assert_eq!(Method::GET, router.get_route(route).method);
    handle(&mut req).unwrap();
}

#[test]
fn parse_parameter() {
    let mut router = Router::new();

    router.get("/hello/wild/*card").unwrap();
    router.get("/hello/:param1").unwrap();
    router.get("/hello/:param1/bla/:param2").unwrap();
    let router = InternalRouter::new(router);

    assert!(router.resolve(Method::GET, "/hello").is_none());
    has_param(&router, "/hello/val1", "param1", "val1");
    has_param(&router, "/hello/val1/bla/val2", "param1", "val1");
    has_param(&router, "/hello/val1/bla/val2", "param2", "val2");
    has_param(&router, "/hello/wild/schrott/more", "card", "schrott/more");
}

fn has_param(router: &InternalRouter, path: &str, name: &str, expected: &str) {
    let (_, params) = router.resolve(Method::GET, path).unwrap();
    let val = params.get(name).unwrap();
    assert_eq!(expected, val);
}

#[test]
fn hello_world_test() {
    let mut router = Router::new();
    router.get("/hello/:hello").unwrap();
    let router = InternalRouter::new(router);
    has_param(&router, "/hello/val1", "hello", "val1");
}

#[test]
fn literal_beats_named_segment() {
    let mut router = Router::new();
    let named = router.get("/x/:p").unwrap();
    let lit = router.get("/x/fixed").unwrap();
    let router = InternalRouter::new(router);

    let (route, _) = router.resolve(Method::GET, "/x/fixed").unwrap();
    assert_eq!(lit, route);
    let (route, _) = router.resolve(Method::GET, "/x/other").unwrap();
    assert_eq!(named, route);
}

#[test]
fn wildcard_only_when_nothing_else_applies() {
    let mut router = Router::new();
    let wild = router.get("/x/*rest").unwrap();
    let named = router.get("/x/:p").unwrap();
    let router = InternalRouter::new(router);

    let (route, _) = router.resolve(Method::GET, "/x/one").unwrap();
    assert_eq!(named, route);
    let (route, params) = router.resolve(Method::GET, "/x/one/two").unwrap();
    assert_eq!(wild, route);
    assert_eq!("one/two", params.get("rest").unwrap());
}

#[test]
fn wildcard_must_stand_last() {
    let mut router = Router::new();
    assert!(router.get("/a/*b/c").is_err());
    assert!(router.get("/a/*b").is_ok());
}

#[test]
fn methods_route_separately() {
    let mut router = Router::new();
    let posted = router.post("/x").unwrap();
    let router = InternalRouter::new(router);
    assert!(router.resolve(Method::GET, "/x").is_none());
    let (route, _) = router.resolve(Method::POST, "/x").unwrap();
    assert_eq!(posted, route);
}

#[test]
fn literal_pattern_matches_exactly() {
    let mut router = Router::new();
    router.get("/a/b").unwrap();
    let router = InternalRouter::new(router);
    assert!(router.resolve(Method::GET, "/a/b").is_some());
    assert!(router.resolve(Method::GET, "/a").is_none());
    assert!(router.resolve(Method::GET, "/a/b/c").is_none());
    assert!(router.resolve(Method::GET, "/a/c").is_none());
    assert!(router.resolve(Method::GET, "/a/b/").is_none());
    assert!(router.resolve(Method::GET, "a/b").is_none());
}

#[test]
fn static_path_registers_wildcard_for_directories() {
    let mut router = Router::new();
    let idx = router
        .static_path_cached(
            "/static",
            "assets",
            true,
            ChangeDetection::Never,
            EvictionPolicy::Never,
        )
        .unwrap();
    let router = InternalRouter::new(router);
    let (route, params) = router.resolve(Method::GET, "/static/css/style.css").unwrap();
    assert_eq!(idx, route);
    assert_eq!("css/style.css", params.get("file").unwrap());
    let cfg = router.get_route(route).static_file.as_ref().unwrap();
    assert_eq!("assets", cfg.file_path);
}
