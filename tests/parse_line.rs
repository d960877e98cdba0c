use http_rs::parse::{parse_new_method_line, NewMetaData};
use http_rs::types::Method;

#[test]
fn parse() {
    let test_lines = vec![
        (
            "PUT / HTTP/1",
            NewMetaData {
                method: Method::PUT,
                path: b"/".to_vec(),
                version: b"HTTP/1".to_vec(),
            },
        ),
        (
            "POST /value HTTP/1",
            NewMetaData {
                method: Method::POST,
                path: b"/value".to_vec(),
                version: b"HTTP/1".to_vec(),
            },
        ),
        (
            "GET /value/path HTTP/1",
            NewMetaData {
                method: Method::GET,
                path: b"/value/path".to_vec(),
                version: b"HTTP/1".to_vec(),
            },
        ),
    ];
    for i in test_lines.into_iter() {
        let parse_res = match parse_new_method_line(i.0) {
            Some(res) => res,
            None => panic!("Test failed"),
        };
        assert_eq!(parse_res, i.1)
    }
}

#[test]
fn method_line_with_wrong_arity_is_rejected() {
    assert!(parse_new_method_line("GET /").is_none());
    assert!(parse_new_method_line("GET / HTTP/1.1 extra").is_none());
    assert!(parse_new_method_line("FETCH / HTTP/1.1").is_none());
}

#[test]
fn method_tokens() {
    assert_eq!(Method::from_bytes(b"DELETE").ok(), Some(Method::DELETE));
    assert_eq!(Method::from_bytes(b"OPTIONS").ok(), Some(Method::OPTIONS));
    assert_eq!(Method::from_bytes(b"get").ok(), None);
    assert!(matches!(Method::from_bytes(b"GO"), Err(http_rs::types::MethodError::InvalidLength)));
    assert!(matches!(Method::from_bytes(b"GETS"), Err(http_rs::types::MethodError::InvalidMethod)));
}
