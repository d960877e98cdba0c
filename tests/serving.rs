use http_rs::dispatch::{Invoke, Plan};
use http_rs::fields::FieldMap;
use http_rs::parse::NewRequestType;
use http_rs::response::{respond, Cookie, Html, IntoResp, Json, Redirect, SameSite, Status, ToHeader};
use http_rs::router::{Handler, RouteError, Router, RouterServable};

type H = fn(&NewRequestType, Option<&String>, Option<&FieldMap>) -> Vec<u8>;

fn serve_once(srv: &RouterServable<String, H>, raw: &[u8]) -> Vec<u8> {
    match srv.plan(raw) {
        Plan::Reply(b) => b,
        Plan::Call(Invoke::Without(f), req) => f(&req, None, None),
        Plan::Call(Invoke::WithState(f), req) => f(&req, srv.router.state.as_ref(), None),
        Plan::Call(Invoke::WithStateAndExtract(f, m), req) => f(&req, srv.router.state.as_ref(), Some(&m)),
    }
}

fn text(b: &[u8]) -> String {
    String::from_utf8(b.to_vec()).unwrap()
}

fn root(_: &NewRequestType, _: Option<&String>, _: Option<&FieldMap>) -> Vec<u8> {
    (Status(200), "root".to_string()).into_response()
}

fn echo(_: &NewRequestType, _: Option<&String>, p: Option<&FieldMap>) -> Vec<u8> {
    let who = p.unwrap().get(b"who").unwrap().clone();
    (Status(200), format!("hi {}", text(&who))).into_response()
}

fn json(_: &NewRequestType, _: Option<&String>, _: Option<&FieldMap>) -> Vec<u8> {
    let v: serde_json::Value = serde_json::from_str("{\"ok\":true}").unwrap();
    respond(Json(v))
}

fn redirect(_: &NewRequestType, _: Option<&String>, _: Option<&FieldMap>) -> Vec<u8> {
    respond(Redirect::new("/t"))
}

fn named(name: &'static str) -> H {
    match name {
        "a" => |_, _, _| (Status(200), "a".to_string()).into_response(),
        "b" => |_, _, _| (Status(200), "b".to_string()).into_response(),
        _ => |_, _, _| (Status(200), "c".to_string()).into_response(),
    }
}

fn params(_: &NewRequestType, _: Option<&String>, p: Option<&FieldMap>) -> Vec<u8> {
    let p = p.unwrap();
    let mut out = String::new();
    for (k, v) in p.entries.iter() {
        out.push_str(&format!("{}={};", text(k), text(v)));
    }
    let id = p.get(b"id").map(|v| text(v)).unwrap_or_default();
    (Status(200), format!("{}|id={}", out, id)).into_response()
}

fn stateful(_: &NewRequestType, s: Option<&String>, _: Option<&FieldMap>) -> Vec<u8> {
    (Status(200), s.unwrap().clone()).into_response()
}

fn body_of(resp: &[u8]) -> String {
    let t = text(resp);
    t.split("\r\n\r\n").nth(1).unwrap().to_string()
}

#[test]
fn root_handler_responds() {
    let srv = Router::<String, H>::new().add_handler("/", Handler::Without(root)).ok().unwrap().make_into_serveable();
    let resp = serve_once(&srv, b"GET / HTTP/1.1\r\n\r\n");
    assert!(text(&resp).starts_with("HTTP/1.1 200 OK\r\nContent-Length: 4\r\n\r\nroot"));
}

#[test]
fn echo_parameter_in_body() {
    let srv = Router::<String, H>::new()
        .add_handler("/echo/:who", Handler::WithStateAndExtract(echo)).ok().unwrap()
        .with_state(String::new())
        .make_into_serveable();
    let resp = serve_once(&srv, b"GET /echo/ada HTTP/1.1\r\n\r\n");
    assert_eq!(body_of(&resp), "hi ada");
}

#[test]
fn unknown_path_is_not_found() {
    let srv = Router::<String, H>::new().make_into_serveable();
    let resp = serve_once(&srv, b"GET /anything HTTP/1.1\r\n\r\n");
    assert!(text(&resp).starts_with("HTTP/1.1 404 NOT FOUND\r\n"));
}

#[test]
fn json_response_headers() {
    let srv = Router::<String, H>::new().add_handler("/j", Handler::Without(json)).ok().unwrap().make_into_serveable();
    let resp = text(&serve_once(&srv, b"GET /j HTTP/1.1\r\n\r\n"));
    assert!(resp.starts_with("HTTP/1.1 200 OK\r\n"));
    assert!(resp.contains("Content-Type: application/json\r\n"));
    assert!(resp.contains("Content-Length: 11\r\n"));
    assert!(resp.ends_with("\r\n\r\n{\"ok\":true}"));
}

#[test]
fn redirect_sets_location() {
    let srv = Router::<String, H>::new().add_handler("/r", Handler::Without(redirect)).ok().unwrap().make_into_serveable();
    let resp = text(&serve_once(&srv, b"GET /r HTTP/1.1\r\n\r\n"));
    assert!(resp.starts_with("HTTP/1.1 302 FOUND\r\n"));
    assert!(resp.contains("\r\nLocation:/t\r\n"));
}

#[test]
fn missing_extracts_is_bad_request() {
    let srv = Router::<String, H>::new()
        .add_handler("/plain", Handler::WithStateAndExtract(echo)).ok().unwrap()
        .with_state(String::new())
        .make_into_serveable();
    let resp = text(&serve_once(&srv, b"GET /plain HTTP/1.1\r\n\r\n"));
    assert!(resp.starts_with("HTTP/1.1 400 BAD REQUEST\r\n"));
    assert!(resp.ends_with("\r\n\r\nMissing path extracts"));
}

#[test]
fn missing_state_is_an_internal_error() {
    let srv = Router::<String, H>::new().add_handler("/s", Handler::WithState(stateful)).ok().unwrap().make_into_serveable();
    let resp = text(&serve_once(&srv, b"GET /s HTTP/1.1\r\n\r\n"));
    assert!(resp.starts_with("HTTP/1.1 500 INTERNAL SERVER ERROR\r\n"));
    assert!(resp.ends_with("Missing state"));
    let srv = Router::<String, H>::new()
        .add_handler("/s", Handler::WithState(stateful)).ok().unwrap()
        .with_state("state".to_string())
        .make_into_serveable();
    assert_eq!(body_of(&serve_once(&srv, b"GET /s HTTP/1.1\r\n\r\n")), "state");
}

#[test]
fn malformed_request_is_a_bad_request() {
    let srv = Router::<String, H>::new().make_into_serveable();
    let resp = text(&serve_once(&srv, b"GET /\r\n\r\n"));
    assert_eq!(resp, "HTTP/1.1 400 BAD REQUEST\r\nContent-Length: 0\r\n\r\n");
}

#[test]
fn fallback_takes_route_misses() {
    let srv = Router::<String, H>::new().fallback(Handler::Without(named("c"))).make_into_serveable();
    assert_eq!(body_of(&serve_once(&srv, b"GET /nowhere HTTP/1.1\r\n\r\n")), "c");
}

#[test]
fn registering_twice_keeps_the_last_handler() {
    let srv = Router::<String, H>::new()
        .add_handler("/p", Handler::Without(named("a"))).ok().unwrap()
        .add_handler("/p", Handler::Without(named("b"))).ok().unwrap()
        .make_into_serveable();
    assert_eq!(body_of(&serve_once(&srv, b"GET /p HTTP/1.1\r\n\r\n")), "b");
    assert_eq!(srv.router.routes.children.len(), 1);
}

#[test]
fn prefix_isolation() {
    for order in [["/wow", "/wowo"], ["/wowo", "/wow"]] {
        let mut r = Router::<String, H>::new();
        for p in order.iter() {
            let h = if *p == "/wow" { named("a") } else { named("b") };
            r = r.add_handler(p, Handler::Without(h)).ok().unwrap();
        }
        let srv = r.make_into_serveable();
        assert_eq!(body_of(&serve_once(&srv, b"GET /wow HTTP/1.1\r\n\r\n")), "a");
        assert_eq!(body_of(&serve_once(&srv, b"GET /wowo HTTP/1.1\r\n\r\n")), "b");
    }
}

#[test]
fn parametric_capture() {
    let srv = Router::<String, H>::new()
        .add_handler("/user/:id/post/:ts", Handler::WithStateAndExtract(params)).ok().unwrap()
        .with_state(String::new())
        .make_into_serveable();
    assert_eq!(body_of(&serve_once(&srv, b"GET /user/42/post/9 HTTP/1.1\r\n\r\n")), "id=42;ts=9;|id=42");
}

#[test]
fn literal_sibling_wins_over_parametric() {
    for order in [["/foo/bar", "/foo/:x"], ["/foo/:x", "/foo/bar"]] {
        let mut r = Router::<String, H>::new();
        for p in order.iter() {
            let h = if *p == "/foo/bar" { named("a") } else { named("b") };
            r = r.add_handler(p, Handler::Without(h)).ok().unwrap();
        }
        let srv = r.make_into_serveable();
        assert_eq!(body_of(&serve_once(&srv, b"GET /foo/bar HTTP/1.1\r\n\r\n")), "a");
        assert_eq!(body_of(&serve_once(&srv, b"GET /foo/baz HTTP/1.1\r\n\r\n")), "b");
    }
}

#[test]
fn query_overrides_captured_parameter() {
    let srv = Router::<String, H>::new()
        .add_handler("/u/:id", Handler::WithStateAndExtract(params)).ok().unwrap()
        .with_state(String::new())
        .make_into_serveable();
    let body = body_of(&serve_once(&srv, b"GET /u/7?id=99 HTTP/1.1\r\n\r\n"));
    assert!(body.ends_with("|id=99"));
}

#[test]
fn forbidden_patterns_are_refused() {
    assert_eq!(Router::<String, H>::new().add_handler("/a.b", Handler::Without(root)).err(), Some(RouteError::Unsupported));
    assert_eq!(Router::<String, H>::new().add_handler("/a=b", Handler::Without(root)).err(), Some(RouteError::Unsupported));
    assert_eq!(Router::<String, H>::new().add_handler("a", Handler::Without(root)).err(), Some(RouteError::NoLeadingSlash));
}

#[test]
fn node_lookup_reports_captures() {
    let mut root_node = http_rs::router::Node::<H>::new(b"/");
    root_node.add_handler(b"/a/:b", Handler::Without(root)).unwrap();
    let rr = root_node.get_handler(b"/a/xyz").unwrap();
    assert_eq!(rr.extract.unwrap().get(b"b"), Some(&b"xyz".to_vec()));
    assert!(root_node.get_handler(b"/a").is_none());
    assert!(root_node.get_handler(b"/a/xyz/more").is_none());
    assert_eq!(root_node.children[0].children[0].subpath, b"/a/:b".to_vec());
}

#[test]
fn status_lines_and_bodies() {
    assert_eq!(text(&Status(404).into_response()), "HTTP/1.1 404 NOT FOUND\r\nContent-Length: 0\r\n\r\n");
    assert_eq!(text(&Status(599).into_response()), "HTTP/1.1 599 INTERNAL SERVER ERROR\r\nContent-Length: 0\r\n\r\n");
    assert_eq!(text(&(Status(201), b"xy".to_vec()).into_response()), "HTTP/1.1 201 CREATED\r\nContent-Length: 2\r\n\r\nxy");
    assert_eq!(
        text(&Html("<p>".to_string()).into_response()),
        "HTTP/1.1 200 OK\r\nContent-Length: 3\r\nContent-Type: text/html\r\n\r\n<p>"
    );
    assert_eq!(text(&"hey".into_response()), "HTTP/1.1 200 OK\r\nContent-Length: 3\r\n\r\nhey");
    let mut hs = FieldMap::new();
    hs.insert(b"X-A".to_vec(), b"1".to_vec());
    assert_eq!(
        text(&(Status(200), hs, "ok".to_string()).into_response()),
        "HTTP/1.1 200 OK\r\nContent-Length: 2\r\nX-A:1\r\n\r\nok"
    );
}

#[test]
fn cookie_header_format() {
    let c = Cookie::new("sid", "abc");
    assert_eq!(text(&c.to_header()), "Set-Cookie: sid=abc; Secure; HttpOnly;");
    let c = Cookie {
        name: "n",
        value: "v",
        domain: Some("example.org"),
        same_site: Some(SameSite::Lax),
        expires: None,
        max_age: None,
        secure: false,
        http_only: false,
        path: Some("/"),
    };
    assert_eq!(text(&c.to_header()), "Set-Cookie: n=v; Domain=example.org; SameSite=Lax; Path=/;");
    let resp = text(&(Status(200), Cookie::new("a", "b"), "x".to_string()).into_response());
    assert!(resp.contains("\r\nSet-Cookie: a=b; Secure; HttpOnly;\r\n"));
}

#[test]
fn json_failure_gives_internal_error() {
    let err = serde_json::from_str::<serde_json::Value>("{").unwrap_err();
    assert_eq!(
        text(&http_rs::response::json_response(Err(err))),
        "HTTP/1.1 500 INTERNAL SERVER ERROR\r\nContent-Length: 0\r\n\r\n"
    );
}

fn subpaths(n: &http_rs::router::Node<H>) -> Vec<String> {
    n.children.iter().map(|c| text(&c.subpath)).collect()
}

#[test]
fn registration_layout() {
    let mut t = http_rs::router::Node::<H>::new(b"/");
    t.add_handler(b"/cool/wow", Handler::Without(named("a"))).unwrap();
    t.add_handler(b"/user/:id/cool/ts/:ts", Handler::Without(named("b"))).unwrap();
    assert_eq!(subpaths(&t), vec!["/cool", "/user"]);
    assert_eq!(subpaths(&t.children[0]), vec!["/cool/wow"]);
    let mut n = &t.children[1];
    for expected in ["/user/:id", "/user/:id/cool", "/user/:id/cool/ts", "/user/:id/cool/ts/:ts"] {
        assert_eq!(n.children.len(), 1);
        n = &n.children[0];
        assert_eq!(text(&n.subpath), expected);
    }
    assert!(n.children.is_empty());
    assert!(matches!(t.get_handler(b"/cool/wow").map(|r| r.handler), Some(Handler::Without(_))));
}

#[test]
fn registering_twice_adds_no_node() {
    let mut t = http_rs::router::Node::<H>::new(b"/");
    t.add_handler(b"/x/y", Handler::Without(named("a"))).unwrap();
    t.add_handler(b"/x/y", Handler::WithState(named("b"))).unwrap();
    assert_eq!(subpaths(&t), vec!["/x"]);
    assert_eq!(subpaths(&t.children[0]), vec!["/x/y"]);
    assert!(matches!(t.get_handler(b"/x/y").map(|r| r.handler), Some(Handler::WithState(_))));
}

#[test]
fn parametric_siblings_in_registration_order() {
    let srv = Router::<String, H>::new()
        .add_handler("/a/:x", Handler::Without(named("a"))).ok().unwrap()
        .add_handler("/a/:y", Handler::Without(named("b"))).ok().unwrap()
        .make_into_serveable();
    assert_eq!(body_of(&serve_once(&srv, b"GET /a/1 HTTP/1.1\r\n\r\n")), "a");
}

#[test]
fn empty_segments_are_refused() {
    assert_eq!(Router::<String, H>::new().add_handler("/a//b", Handler::Without(root)).err(), Some(RouteError::EmptySegment));
    assert_eq!(Router::<String, H>::new().add_handler("/a/", Handler::Without(root)).err(), Some(RouteError::EmptySegment));
}
