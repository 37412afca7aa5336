use rest_in_rust::codec::{HttpCodec, HttpCodecCfg, DecodingResult};
use rest_in_rust::router::{Router, InternalRouter, Method};

const RAW_GET: &[u8] = b"GET / HTTP/1.1\r\n";
const RAW_HEADER: &[u8] = b"Host: Nirvana\r\nConnection: keep-alive\r\n";

fn empty_router() -> InternalRouter {
    InternalRouter::new(Router::new())
}

fn root_router() -> InternalRouter {
    let mut r = Router::new();
    r.get("/").unwrap();
    InternalRouter::new(r)
}

#[test]
fn test_header_too_long() {}

#[test]
fn test_header_too_long_incomplete() {
    let mut bytes = RAW_GET.to_vec();
    bytes.extend_from_slice(RAW_HEADER);

    let config = HttpCodecCfg::new(30, 10, 10);
    let mut codec = HttpCodec::new(config);
    let router = empty_router();
    let r = codec.decode(&router, &mut bytes);
    match r {
        Ok(Some(DecodingResult::HeaderTooLarge)) => (),
        r => panic!("wrong return value {:?}", result_tag(&r)),
    }
    assert_eq!(0, bytes.len());
}

#[test]
fn test_body_too_long() {
    let mut bytes = RAW_GET.to_vec();
    bytes.extend_from_slice(RAW_HEADER);
    bytes.extend_from_slice(b"Content-Length: 30\r\n\r\n");

    let config = HttpCodecCfg::new(8000, 10, 10);
    let mut codec = HttpCodec::new(config);
    let router = empty_router();
    let r = codec.decode(&router, &mut bytes);
    match r {
        Ok(Some(DecodingResult::BodyTooLarge)) => (),
        r => panic!("wrong return value {:?}", result_tag(&r)),
    }
    assert_eq!(0, bytes.len());
}

#[test]
fn test_body_missing() {
    let mut bytes = RAW_GET.to_vec();
    bytes.extend_from_slice(RAW_HEADER);
    bytes.extend_from_slice(b"Content-Length: 30\r\n\r\n");

    let mut codec = HttpCodec::new(HttpCodecCfg::default());
    let router = root_router();
    let r = codec.decode(&router, &mut bytes);
    assert!(r.is_ok());
    assert!(r.unwrap().is_none());
}

#[test]
fn test_route_not_found() {
    let mut bytes = RAW_GET.to_vec();
    bytes.extend_from_slice(RAW_HEADER);
    bytes.extend_from_slice(b"Content-Length: 30\r\n\r\n");

    let mut codec = HttpCodec::new(HttpCodecCfg::default());
    let router = empty_router();
    let r = codec.decode(&router, &mut bytes);
    assert!(r.is_ok());
    let r = r.unwrap();
    assert!(r.is_some());
    match r.unwrap() {
        DecodingResult::RouteNotFound => (),
        _ => panic!("wrong return value"),
    }
}

#[test]
fn test_wait_for_header() {
    let mut bytes = RAW_GET.to_vec();
    bytes.extend_from_slice(RAW_HEADER);

    let mut codec = HttpCodec::new(HttpCodecCfg::default());
    let router = empty_router();
    let r = codec.decode(&router, &mut bytes);
    assert!(r.is_ok());
    assert!(r.unwrap().is_none());
}

#[test]
fn receive_body_two_parts() {
    let router = root_router();
    let mut codec = HttpCodec::new(HttpCodecCfg::default());

    let mut bytes = RAW_GET.to_vec();
    bytes.extend_from_slice(RAW_HEADER);
    bytes.extend_from_slice(b"Content-Length: 11\r\n");
    bytes.extend_from_slice(b"\r\n");
    bytes.extend_from_slice(b"Hello ");

    {
        let r = codec.decode(&router, &mut bytes);
        assert!(r.is_ok());
        assert!(r.unwrap().is_none());
    }
    assert_eq!(6, bytes.len());
    assert!(codec.has_partial());

    bytes.extend_from_slice(b"World");
    {
        let r = codec.decode(&router, &mut bytes);
        assert!(r.is_ok());
        let o = r.unwrap();
        assert!(o.is_some());
        match o.unwrap() {
            DecodingResult::Complete(res) => {
                let b = res.request.body.into_inner().unwrap();
                let body_string = String::from_utf8(b).unwrap();
                assert_eq!("Hello World", body_string);
            },
            _ => panic!("Got no result"),
        }
    }
}

#[test]
fn post_simple() {
    let router = root_router();
    let mut codec = HttpCodec::new(HttpCodecCfg::default());

    let mut bytes = RAW_GET.to_vec();
    bytes.extend_from_slice(RAW_HEADER);
    bytes.extend_from_slice(b"Content-Length: 4\r\n");
    bytes.extend_from_slice(b"\r\n");
    bytes.extend_from_slice(b"Hello");

    let r = codec.decode(&router, &mut bytes);
    assert!(r.is_ok());
    let o = r.unwrap();
    assert!(o.is_some());
    match o.unwrap() {
        DecodingResult::Complete(res) => {
            let b = res.request.body.into_inner().unwrap();
            let body_string = String::from_utf8(b).unwrap();
            // the body is exactly the announced four bytes; the fifth stays
            // buffered
            assert_eq!("Hell", body_string);
        },
        _ => panic!("Got no result"),
    }
    assert_eq!(b"o".to_vec(), bytes);
}

#[test]
fn header_block_over_limit_is_refused() {
    // a 9,000-byte header block against a limit of 8,000
    let mut bytes = b"GET / HTTP/1.1\r\n".to_vec();
    while bytes.len() < 9000 {
        bytes.extend_from_slice(b"X-Filler: aaaaaaaaaaaaaaaaaaaaaaaaaaaaaaaaaaaaaaaa\r\n");
    }
    bytes.truncate(9000);

    let config = HttpCodecCfg::new(8000, 20_000_000, 600);
    let mut codec = HttpCodec::new(config);
    let router = root_router();
    let r = codec.decode(&router, &mut bytes);
    match r {
        Ok(Some(DecodingResult::HeaderTooLarge)) => (),
        r => panic!("wrong return value {:?}", result_tag(&r)),
    }
    assert_eq!(0, bytes.len());
}

#[test]
fn oversize_content_length_is_refused_before_body() {
    let mut bytes = RAW_GET.to_vec();
    bytes.extend_from_slice(b"Content-Length: 30000000\r\n\r\n");

    let mut codec = HttpCodec::new(HttpCodecCfg::default());
    let router = root_router();
    let r = codec.decode(&router, &mut bytes);
    match r {
        Ok(Some(DecodingResult::BodyTooLarge)) => (),
        r => panic!("wrong return value {:?}", result_tag(&r)),
    }
    assert_eq!(0, bytes.len());
}

#[test]
fn identical_bytes_decode_identically() {
    let mut r = Router::new();
    r.get("/hello/:name").unwrap();
    let router = InternalRouter::new(r);

    let raw = b"GET /hello/world HTTP/1.1\r\nHost: x\r\nContent-Length: 2\r\n\r\nok";
    let mut b1 = raw.to_vec();
    let mut b2 = raw.to_vec();
    let mut c1 = HttpCodec::new(HttpCodecCfg::default());
    let mut c2 = HttpCodec::new(HttpCodecCfg::default());
    let d1 = c1.decode(&router, &mut b1).unwrap().unwrap();
    let d2 = c2.decode(&router, &mut b2).unwrap().unwrap();
    match (d1, d2) {
        (DecodingResult::Complete(x), DecodingResult::Complete(y)) => {
            assert_eq!(x.route, y.route);
            assert_eq!(x.request.uri, y.request.uri);
            assert_eq!(x.request.method, y.request.method);
            assert_eq!(x.request.headers, y.request.headers);
            assert_eq!(x.request.body.0, y.request.body.0);
            assert_eq!(x.params.get("name"), y.params.get("name"));
        },
        _ => panic!("expected two decoded requests"),
    }
    assert_eq!(b1, b2);
}

#[test]
fn split_feeding_matches_single_feeding() {
    let mut r = Router::new();
    r.get("/hello/:name").unwrap();
    let router = InternalRouter::new(r);

    let raw: &[u8] = b"GET /hello/world HTTP/1.1\r\nHost: x\r\nContent-Length: 5\r\n\r\nhello";
    let mut whole = raw.to_vec();
    let mut c0 = HttpCodec::new(HttpCodecCfg::default());
    let expected = match c0.decode(&router, &mut whole).unwrap().unwrap() {
        DecodingResult::Complete(d) => d,
        _ => panic!("expected a decoded request"),
    };

    for cut in 0..raw.len() + 1 {
        let mut codec = HttpCodec::new(HttpCodecCfg::default());
        let mut buf = raw[..cut].to_vec();
        let first = codec.decode(&router, &mut buf).unwrap();
        let got = match first {
            Some(DecodingResult::Complete(d)) => d,
            Some(_) => panic!("unexpected outcome at cut {}", cut),
            None => {
                buf.extend_from_slice(&raw[cut..]);
                match codec.decode(&router, &mut buf).unwrap() {
                    Some(DecodingResult::Complete(d)) => d,
                    _ => panic!("no request at cut {}", cut),
                }
            },
        };
        assert_eq!(expected.route, got.route);
        assert_eq!(expected.request.uri, got.request.uri);
        assert_eq!(expected.request.headers, got.request.headers);
        assert_eq!(expected.request.body.0, got.request.body.0);
        assert_eq!(
            expected.params.get("name"),
            got.params.get("name"),
        );
    }
}

#[test]
fn handler_sees_bound_parameter() {
    // register GET /hello/:world, request /hello/huhu, answer with the binding
    let mut r = Router::new();
    r.get("/hello/:world").unwrap();
    let router = InternalRouter::new(r);

    let mut codec = HttpCodec::new(HttpCodecCfg::default());
    let mut bytes = b"GET /hello/huhu HTTP/1.1\r\n\r\n".to_vec();
    let decoded = match codec.decode(&router, &mut bytes).unwrap().unwrap() {
        DecodingResult::Complete(d) => d,
        _ => panic!("expected a decoded request"),
    };
    assert_eq!(Method::GET, decoded.request.method);
    let world = decoded.params.get("world").unwrap().to_string();
    assert_eq!("huhu", world);

    let response = rest_in_rust::response::Response::from_text(&world);
    assert_eq!(200, response.status().as_u16());
    assert_eq!(b"huhu".to_vec(), response.into_vec().unwrap());
}

#[test]
fn wildcard_binding_through_decode() {
    let mut r = Router::new();
    r.get("/say/*text").unwrap();
    let router = InternalRouter::new(r);

    let mut codec = HttpCodec::new(HttpCodecCfg::default());
    let mut bytes = b"GET /say/is/this/silence HTTP/1.1\r\n\r\n".to_vec();
    let decoded = match codec.decode(&router, &mut bytes).unwrap().unwrap() {
        DecodingResult::Complete(d) => d,
        _ => panic!("expected a decoded request"),
    };
    assert_eq!("is/this/silence", decoded.params.get("text").unwrap());
}

fn result_tag(r: &Result<Option<DecodingResult>, rest_in_rust::codec::DecodeError>) -> &'static str {
    match r {
        Ok(None) => "Ok(None)",
        Ok(Some(DecodingResult::RouteNotFound)) => "RouteNotFound",
        Ok(Some(DecodingResult::HeaderTooLarge)) => "HeaderTooLarge",
        Ok(Some(DecodingResult::BodyTooLarge)) => "BodyTooLarge",
        Ok(Some(DecodingResult::Complete(_))) => "Complete",
        Err(_) => "Err",
    }
}
