use rest_in_rust::response::Response;
use rest_in_rust::error::{HttpError, StatusCode};
use rest_in_rust::codec::{HttpCodec, HttpCodecCfg};
use rest_in_rust::server::{enhance_content_type, handler_response, dispatch_decision, Dispatch};
use rest_in_rust::codec::DecodingResult;
use rest_in_rust::router::{Router, InternalRouter, Threading};

#[test]
fn header_from_str() {
    Response::builder().header_str_value("content-type", "Text/CacheManifest").unwrap();
    let s: String = "huhu".into();
    Response::builder().header_str_value("content-type", &s).unwrap();
}

#[test]
fn builder_collects_all_parts() {
    let resp = Response::builder()
        .status(StatusCode::not_modified())
        .header_str_value("x-marker", "yes")
        .unwrap()
        .body_vec(b"abc".to_vec())
        .build()
        .unwrap();
    assert_eq!(304, resp.status().as_u16());
    assert_eq!("yes", resp.header("x-marker").unwrap());
    assert_eq!(b"abc".to_vec(), resp.into_vec().unwrap());
}

#[test]
fn set_header_replaces_in_place() {
    let mut resp = Response::from_text("x");
    resp.set_header("a", "1").unwrap();
    resp.set_header("b", "2").unwrap();
    resp.set_header("A", "3").unwrap();
    assert_eq!("3", resp.header("a").unwrap());
    assert_eq!("2", resp.header("b").unwrap());
    assert_eq!(2, resp.headers().len());
    assert!(resp.set_header("bad", "line\r\nbreak").is_err());
}

#[test]
fn moved_permanent_sets_location() {
    let resp = Response::moved_permanent("https://example.test/next").unwrap();
    assert_eq!(301, resp.status().as_u16());
    assert_eq!("https://example.test/next", resp.header("location").unwrap());
}

#[test]
fn encode_writes_status_line_headers_and_body() {
    let codec = HttpCodec::new(HttpCodecCfg::default());
    let mut resp = Response::from_text("huhu");
    resp.set_header("x-one", "1").unwrap();
    let mut out: Vec<u8> = Vec::new();
    codec.encode(resp, &mut out);
    let expected = b"HTTP/1.1 200 OK\r\nx-one: 1\r\nContent-Length: 4\r\n\r\nhuhu".to_vec();
    assert_eq!(String::from_utf8(expected).unwrap(), String::from_utf8(out).unwrap());
}

#[test]
fn encode_keeps_an_explicit_content_length() {
    let codec = HttpCodec::new(HttpCodecCfg::default());
    let mut resp = Response::from_text("hi");
    resp.set_header("Content-Length", "2").unwrap();
    let mut out: Vec<u8> = Vec::new();
    codec.encode(resp, &mut out);
    let text = String::from_utf8(out).unwrap();
    assert_eq!(1, text.matches("Content-Length").count());
}

#[test]
fn encode_without_body_has_no_content_length() {
    let codec = HttpCodec::new(HttpCodecCfg::default());
    let resp = Response::from_status(StatusCode::not_found());
    let mut out: Vec<u8> = Vec::new();
    codec.encode(resp, &mut out);
    let text = String::from_utf8(out).unwrap();
    assert_eq!("HTTP/1.1 404 Not Found\r\n\r\n", text);
}

#[test]
fn test_guess_content_type() {
    test_content_type(None, b"<body");
    test_content_type(None, b"<note><to>Tove</to></note>s");
    test_content_type(None, b"@font-face{font-family:Work ");
}

fn test_content_type(content_type: Option<&str>, body: &[u8]) {
    let resp = Response::from_bytes(body.to_vec());
    let resp = enhance_content_type(resp);
    let o = resp.header("content-type");
    assert_eq!(content_type, o);
}

#[test]
fn sniffed_png_gets_a_content_type() {
    let mut bytes = b"\x89PNG\x0D\x0A\x1A\x0A".to_vec();
    bytes.extend_from_slice(&[0u8; 16]);
    let resp = Response::from_bytes(bytes);
    let resp = enhance_content_type(resp);
    assert_eq!("image/png", resp.header("content-type").unwrap());
}

#[test]
fn handler_errors_become_responses() {
    let resp = handler_response(Err(HttpError::not_found("nothing here")));
    assert_eq!(404, resp.status().as_u16());
    assert_eq!(b"nothing here".to_vec(), resp.into_vec().unwrap());
}

#[test]
fn dispatch_answers_errors_directly() {
    let router = InternalRouter::new(Router::new());
    match dispatch_decision(DecodingResult::RouteNotFound, &router) {
        Dispatch::Respond(resp) => assert_eq!(404, resp.status().as_u16()),
        _ => panic!("expected a direct response"),
    }
    match dispatch_decision(DecodingResult::HeaderTooLarge, &router) {
        Dispatch::Respond(resp) => assert_eq!(400, resp.status().as_u16()),
        _ => panic!("expected a direct response"),
    }
    match dispatch_decision(DecodingResult::BodyTooLarge, &router) {
        Dispatch::Respond(resp) => assert_eq!(400, resp.status().as_u16()),
        _ => panic!("expected a direct response"),
    }
}

#[test]
fn dispatch_runs_handlers_per_route_threading() {
    let mut r = Router::new();
    r.post("/submit").unwrap();
    let router = InternalRouter::new(r);
    let mut codec = HttpCodec::new(HttpCodecCfg::default());
    let mut bytes = b"POST /submit HTTP/1.1\r\nContent-Length: 2\r\n\r\nhi".to_vec();
    let outcome = codec.decode(&router, &mut bytes).unwrap().unwrap();
    match dispatch_decision(outcome, &router) {
        Dispatch::Run(decoded, threading) => {
            assert_eq!(Threading::SEPERATE, threading);
            assert_eq!(b"hi".to_vec(), decoded.request.body.0.unwrap());
        },
        _ => panic!("expected a handler run"),
    }
    let _ = DecodingResult::RouteNotFound;
}
