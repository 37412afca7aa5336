use rest_in_rust::request::Request;
use rest_in_rust::body::Body;
use rest_in_rust::params::Params;
use rest_in_rust::router::Method;

fn query_request(uri: &str) -> Request {
    Request::new(
        Method::GET,
        uri.to_string(),
        rest_in_rust::request::Version::Http11,
        Vec::new(),
        Body(None),
        Params::new(),
    )
}

#[test]
fn request_test_query_param() {
    let req = query_request("/bla?hallo=welt&hallo=blubb");
    assert_eq!("welt", req.query_first("hallo").unwrap());
    assert_eq!(None, req.query_first("ne"));
    assert_eq!(2, req.query("hallo").unwrap().len());
}

#[test]
fn mod_test_query_param() {
    let req = Request::get("/bla?hallo=welt&hallo=blubb").unwrap();
    assert_eq!("welt", req.query_first("hallo").unwrap());
    assert_eq!(None, req.query_first("ne"));
    assert_eq!(2, req.query("hallo").unwrap().len());
}

#[test]
fn query_values_are_percent_decoded() {
    let req = Request::get("/x?greeting=hello%20there&sum=1%2B1&word=a+b").unwrap();
    assert_eq!("hello there", req.query_first("greeting").unwrap());
    assert_eq!("1+1", req.query_first("sum").unwrap());
    assert_eq!("a b", req.query_first("word").unwrap());
}

#[test]
fn header_lookup_ignores_case() {
    let req = Request::new(
        Method::GET,
        "/".to_string(),
        rest_in_rust::request::Version::Http11,
        vec![("Content-Type".to_string(), b"text/plain".to_vec())],
        Body(None),
        Params::new(),
    );
    assert_eq!("text/plain", req.header("content-type").unwrap());
    assert_eq!("text/plain", req.header_str("CONTENT-TYPE").unwrap());
    assert_eq!(b"text/plain".to_vec(), req.header_bytes("content-type").unwrap().to_vec());
    assert!(req.header("accept").is_none());
}

#[test]
fn params_bind_and_shadow() {
    let mut params = Params::new();
    params.insert("name".to_string(), "first".to_string());
    assert_eq!("first", params.get("name").unwrap());
    params.insert("name".to_string(), "second".to_string());
    assert_eq!("second", params.get("name").unwrap());
    assert!(params.get("other").is_none());
}

#[test]
fn body_to_string_needs_content() {
    let empty = Body::empty();
    let err = empty.to_string().unwrap_err();
    assert_eq!(400, err.status.as_u16());

    let body = Body::from_str_body("hello");
    assert_eq!("hello", body.to_string().unwrap());

    let invalid = Body(Some(vec![0xff, 0xfe]));
    let err = invalid.to_string().unwrap_err();
    assert_eq!(400, err.status.as_u16());
}

#[test]
fn body_accessors_expose_the_bytes() {
    let mut body = Body(Some(b"abc".to_vec()));
    assert_eq!(3, body.len());
    assert_eq!(&Some(b"abc".to_vec()), body.inner());
    body.inner_mut().as_mut().unwrap().push(b'd');
    assert_eq!(Some(b"abcd".to_vec()), body.into_inner());
}
