use http_rs::parse::{parse_request, parse_params_from_path, ParseError, BodyError, parse_params, parse_json, parse_body, parse_header, parse_method_line, parse_body_new};
use http_rs::request::{Body, ContentType, Request, MetaData};
use http_rs::fields::FieldMap;
use http_rs::types::Method;

#[test]
fn request_round_trips_line_and_headers() {
    let raw = b"POST /submit HTTP/1.1\r\nHost: example.org\r\nX-Token: AbC\r\n\r\nhello";
    let req = parse_request(raw).ok().unwrap();
    assert_eq!(req.metadata.method, Method::POST);
    assert_eq!(req.metadata.path, b"/submit".to_vec());
    assert_eq!(req.metadata.version, b"HTTP/1.1".to_vec());
    assert_eq!(req.headers.get(b"host"), Some(&b"example.org".to_vec()));
    assert_eq!(req.headers.get(b"x-token"), Some(&b"AbC".to_vec()));
    assert_eq!(req.headers.len(), 2);
    assert_eq!(req.body, Some(b"hello".to_vec()));
    assert!(req.params.is_none());
}

#[test]
fn query_string_drops_malformed_pairs() {
    let req = parse_request(b"GET /x?a=1&b=2&c HTTP/1.1\r\n\r\n").ok().unwrap();
    assert_eq!(req.metadata.path, b"/x".to_vec());
    let q = req.params.unwrap();
    assert_eq!(q.len(), 2);
    assert_eq!(q.get(b"a"), Some(&b"1".to_vec()));
    assert_eq!(q.get(b"b"), Some(&b"2".to_vec()));
    assert_eq!(q.get(b"c"), None);
    assert!(parse_params_from_path(b"c&d").is_none());
}

#[test]
fn request_line_only_is_valid() {
    let req = parse_request(b"GET /a HTTP/1.1").ok().unwrap();
    assert_eq!(req.headers.len(), 0);
    assert!(req.body.is_none());
}

#[test]
fn parse_errors() {
    assert_eq!(parse_request(b"").err(), Some(ParseError::Empty));
    assert_eq!(parse_request(b"\r\nGET / HTTP/1.1\r\n\r\n").err(), Some(ParseError::Empty));
    assert_eq!(parse_request(b"GET /\r\n\r\n").err(), Some(ParseError::NotValidRequest));
    assert_eq!(parse_request(b"GET / HTTP/1.1 x\r\n\r\n").err(), Some(ParseError::NotValidRequest));
}

#[test]
fn header_parsing_stops_at_first_non_header() {
    let req = parse_request(b"GET / HTTP/1.1\r\nA: 1\r\nnot a header\r\nB: 2\r\n\r\n").ok().unwrap();
    assert_eq!(req.headers.len(), 1);
    assert_eq!(req.headers.get(b"a"), Some(&b"1".to_vec()));
    assert_eq!(req.headers.get(b"b"), None);
}

#[test]
fn json_body_errors_and_value() {
    let req = parse_request(b"GET / HTTP/1.1\r\n\r\n").ok().unwrap();
    assert_eq!(req.json_body().err(), Some(BodyError::Missing));
    let req = parse_request(b"POST / HTTP/1.1\r\n\r\n{not json").ok().unwrap();
    assert_eq!(req.json_body().err(), Some(BodyError::Malformed));
    let req = parse_request(b"POST / HTTP/1.1\r\n\r\n{\"page\":\"3\"}").ok().unwrap();
    let v = req.json_body().ok().unwrap();
    assert_eq!(v.get("page").and_then(|p| p.as_str()), Some("3"));
}

#[test]
fn field_map_last_binding_wins() {
    let mut m = FieldMap::new();
    m.insert(b"id".to_vec(), b"7".to_vec());
    let mut q = FieldMap::new();
    q.insert(b"id".to_vec(), b"99".to_vec());
    m.extend(&q);
    assert_eq!(m.get(b"id"), Some(&b"99".to_vec()));
}

#[test]
fn form_and_json_bodies() {
    match parse_params(b"a=1&b=2=3&c") {
        Some(ContentType::UrlEncoded(m)) => {
            assert_eq!(m.get(b"a"), Some(&b"1".to_vec()));
            assert_eq!(m.get(b"b"), Some(&b"2".to_vec()));
            assert_eq!(m.get(b"c"), None);
        }
        _ => panic!("expected a form"),
    }
    assert!(parse_params(b"c").is_none());
    assert_eq!(parse_json(b"{\"a\":1}\nrest"), Some(ContentType::Json(b"{\"a\":1}".to_vec())));
    assert_eq!(parse_json(b"\nrest"), None);
    assert_eq!(parse_body(b"abc\0\0", 3), Some(Body::Text(b"abc".to_vec())));
    assert_eq!(parse_body(b"abc\0\0", 4), None);
    assert_eq!(
        parse_body_new(Body::Text(b"{\"a\":1}".to_vec()), b"application/json"),
        Some(ContentType::Json(b"{\"a\":1}".to_vec()))
    );
    assert_eq!(parse_body_new(Body::Text(b"x".to_vec()), b"text/plain"), None);
    assert_eq!(parse_body_new(Body::Empty, b"application/json"), None);
}

#[test]
fn header_and_method_line() {
    let h = parse_header(b"Content-Type: Text/HTML").unwrap();
    assert_eq!(h.key, b"content-type".to_vec());
    assert_eq!(h.val, b"Text/HTML".to_vec());
    assert!(parse_header(b"a: b: c").is_none());
    let m = parse_method_line(b"BREW /pot HTTP/1.1").unwrap();
    assert_eq!(m.method, b"BREW".to_vec());
    assert!(parse_method_line(b"GET /").is_none());
    assert!(http_rs::parse::parse_line().is_none());
}

#[test]
fn cookies_from_header() {
    let mut headers = FieldMap::new();
    headers.insert(b"cookie".to_vec(), b"a=1; b = 2; bad; c=3".to_vec());
    let req = Request {
        metadata: MetaData { method: b"GET".to_vec(), path: b"/".to_vec(), version: b"HTTP/1.1".to_vec() },
        body: None,
        headers,
    };
    let c = req.cookies().unwrap();
    assert_eq!(c.len(), 2);
    assert_eq!(c.get(b"a"), Some(&b"1".to_vec()));
    assert_eq!(c.get(b"b"), Some(&b"2".to_vec()));
    assert_eq!(c.get(b"c"), None);
    let none = Request {
        metadata: MetaData { method: b"GET".to_vec(), path: b"/".to_vec(), version: b"HTTP/1.1".to_vec() },
        body: None,
        headers: FieldMap::new(),
    };
    assert!(none.cookies().is_none());
}

#[test]
fn request_model_json_body() {
    let meta = MetaData { method: b"POST".to_vec(), path: b"/".to_vec(), version: b"HTTP/1.1".to_vec() };
    let r = Request { metadata: meta.clone(), body: Some(ContentType::Json(b"{\"a\":1}".to_vec())), headers: FieldMap::new() };
    assert_eq!(r.json_body().ok().unwrap().get("a").and_then(|v| v.as_i64()), Some(1));
    let r = Request { metadata: meta.clone(), body: Some(ContentType::Json(b"{".to_vec())), headers: FieldMap::new() };
    assert_eq!(r.json_body().err(), Some(BodyError::Malformed));
    let r = Request { metadata: meta.clone(), body: Some(ContentType::PlainText(b"x".to_vec())), headers: FieldMap::new() };
    assert_eq!(r.json_body().err(), Some(BodyError::WrongType));
    let r = Request { metadata: meta, body: None, headers: FieldMap::new() };
    assert_eq!(r.json_body().err(), Some(BodyError::Missing));
}
