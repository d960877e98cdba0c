//! The request parser: a raw byte buffer to a structured request.
use vstd::prelude::*;
use vstd::slice::slice_to_vec;
use vstd::string::StringSliceAdditionalSpecFns;
use crate::fields::FieldMap;
use crate::text::{
    free_of, split, find, lower, views, split_bytes, find_from, copy_range, to_lower, first_from, occurs_at,
    lemma_split_once, lemma_split_none, lemma_next_at, lemma_occurs_shift,
};
use crate::types::{Method, method_of, bytes_eq};
use crate::request::{Body, ContentType, Header, MetaData, Request, TypeOfData};

verus! {

pub open spec fn sp() -> Seq<u8> {
    seq![32u8]
}

pub open spec fn crlf() -> Seq<u8> {
    seq![13u8, 10]
}

pub open spec fn blank_line() -> Seq<u8> {
    seq![13u8, 10, 13, 10]
}

pub open spec fn colon_sp() -> Seq<u8> {
    seq![58u8, 32]
}

pub open spec fn amp() -> Seq<u8> {
    seq![38u8]
}

pub open spec fn eq_sign() -> Seq<u8> {
    seq![61u8]
}

pub open spec fn qmark() -> Seq<u8> {
    seq![63u8]
}

/// Why a request could not be parsed.
#[derive(Clone, Copy, Debug, PartialEq, Eq, Structural)]
pub enum ParseError {
    /// The request line is empty.
    Empty,
    /// The request line is not `METHOD SP TARGET SP VERSION`.
    NotValidRequest,
    /// Reserved for a header section that cannot be read.
    CannotParseMetaData,
}

/// The request line: method, target and protocol version.
#[derive(Clone, Debug, PartialEq, Eq)]
pub struct NewMetaData {
    pub method: Method,
    pub path: Vec<u8>,
    pub version: Vec<u8>,
}

/// A parsed request.
#[derive(Clone, Debug, PartialEq, Eq)]
pub struct NewRequestType {
    pub metadata: NewMetaData,
    /// Whatever follows the header section, if anything does.
    pub body: Option<Vec<u8>>,
    /// Header names in lower case, mapped to their raw values.
    pub headers: FieldMap,
    /// The query string's pairs, if it had any well-formed one.
    pub params: Option<FieldMap>,
}

/// The tokens of a request line split on single spaces.
pub open spec fn line_tokens(line: Seq<u8>) -> Seq<Seq<u8>> {
    split(line, sp())
}

/// `line` is a request line: three tokens, the first a known method.
pub open spec fn is_request_line(line: Seq<u8>) -> bool {
    line_tokens(line).len() == 3 && method_of(line_tokens(line)[0]) is Some
}

/// A header line splits on `": "` into exactly a name and a value.
pub open spec fn is_header_line(line: Seq<u8>) -> bool {
    split(line, colon_sp()).len() == 2
}

/// A query pair splits on `=` into exactly a name and a value.
pub open spec fn query_pair(p: Seq<u8>) -> Option<(Seq<u8>, Seq<u8>)> {
    let t = split(p, eq_sign());
    if t.len() == 2 {
        Some((t[0], t[1]))
    } else {
        None
    }
}

/// The well-formed pairs among `ps`, in order; the others are dropped.
pub open spec fn query_pairs(ps: Seq<Seq<u8>>) -> Seq<(Seq<u8>, Seq<u8>)>
    decreases ps.len(),
{
    if ps.len() == 0 {
        seq![]
    } else {
        let rest = query_pairs(ps.drop_last());
        match query_pair(ps.last()) {
            Some(kv) => rest.push(kv),
            None => rest,
        }
    }
}

/// The query that a query string denotes: none when no pair is well formed.
pub open spec fn query_of(q: Seq<u8>) -> Option<Seq<(Seq<u8>, Seq<u8>)>> {
    let ps = query_pairs(split(q, amp()));
    if ps.len() == 0 {
        None
    } else {
        Some(ps)
    }
}

/// A request target without its query string.
pub open spec fn target_path(t: Seq<u8>) -> Seq<u8> {
    match find(t, qmark()) {
        Some(q) => t.subrange(0, q),
        None => t,
    }
}

/// The query of a request target, if it has a well-formed pair.
pub open spec fn target_query(t: Seq<u8>) -> Option<Seq<(Seq<u8>, Seq<u8>)>> {
    match find(t, qmark()) {
        Some(q) => query_of(t.subrange(q + 1, t.len() as int)),
        None => None,
    }
}

/// The message up to the blank line that ends the header section.
pub open spec fn head_of(s: Seq<u8>) -> Seq<u8> {
    match find(s, blank_line()) {
        Some(k) => s.subrange(0, k),
        None => s,
    }
}

/// The bytes after the blank line that ends the header section.
pub open spec fn body_of(s: Seq<u8>) -> Seq<u8> {
    match find(s, blank_line()) {
        Some(k) => s.subrange(k + 4, s.len() as int),
        None => seq![],
    }
}

/// The lines of the head: the request line, then the header lines.
pub open spec fn lines_of(s: Seq<u8>) -> Seq<Seq<u8>> {
    split(head_of(s), crlf())
}

/// The index of the first line at or after `i` that is not a header line.
pub open spec fn header_end(ls: Seq<Seq<u8>>, i: int) -> int
    decreases ls.len() - i,
{
    if i < 0 || i >= ls.len() || !is_header_line(ls[i]) {
        i
    } else {
        header_end(ls, i + 1)
    }
}

/// A header line as a pair: its lower-cased name and its value.
pub open spec fn header_pair(line: Seq<u8>) -> (Seq<u8>, Seq<u8>) {
    (lower(split(line, colon_sp())[0]), split(line, colon_sp())[1])
}

/// The headers of a message: the run of header lines after the request line.
pub open spec fn header_pairs(s: Seq<u8>) -> Seq<(Seq<u8>, Seq<u8>)> {
    let ls = lines_of(s);
    ls.subrange(1, header_end(ls, 1)).map_values(|l: Seq<u8>| header_pair(l))
}

/// The request line of a message.
pub open spec fn request_line(s: Seq<u8>) -> Seq<u8> {
    lines_of(s)[0]
}

/// How parsing `s` fails, if it does.
pub open spec fn parse_error(s: Seq<u8>) -> Option<ParseError> {
    if request_line(s).len() == 0 {
        Some(ParseError::Empty)
    } else if !is_request_line(request_line(s)) {
        Some(ParseError::NotValidRequest)
    } else {
        None
    }
}

/// `req` is what parsing the well-formed message `s` yields.
pub open spec fn parsed_as(s: Seq<u8>, req: NewRequestType) -> bool {
    let t = line_tokens(request_line(s));
    &&& Some(req.metadata.method) == method_of(t[0])
    &&& req.metadata.path@ == target_path(t[1])
    &&& req.metadata.version@ == t[2]
    &&& req.headers.pairs() == header_pairs(s)
    &&& match target_query(t[1]) {
        Some(ps) => req.params matches Some(p) && p.pairs() == ps,
        None => req.params is None,
    }
    &&& if body_of(s).len() == 0 {
        req.body is None
    } else {
        req.body matches Some(b) && b@ == body_of(s)
    }
}

/// Reads a request line given as bytes.
pub fn method_line(line: &[u8]) -> (r: Option<NewMetaData>)
    ensures
        r is Some <==> is_request_line(line@),
        r matches Some(m) ==> {
            &&& Some(m.method) == method_of(line_tokens(line@)[0])
            &&& m.path@ == line_tokens(line@)[1]
            &&& m.version@ == line_tokens(line@)[2]
        },
{
    let sep: [u8; 1] = [32u8];
    let parts = split_bytes(line, &sep);
    proof {
        assert(sep@ =~= sp());
        assert(views(parts@) == line_tokens(line@));
        assert(views(parts@).len() == parts@.len());
    }
    if parts.len() != 3 {
        return None;
    }
    proof {
        assert(views(parts@)[0] == parts@[0]@);
        assert(views(parts@)[1] == parts@[1]@);
        assert(views(parts@)[2] == parts@[2]@);
    }
    match Method::from_bytes(parts[0].as_slice()) {
        Ok(method) => Some(NewMetaData {
            method,
            path: slice_to_vec(parts[1].as_slice()),
            version: slice_to_vec(parts[2].as_slice()),
        }),
        Err(_) => None,
    }
}

/// Reads a request line: `METHOD SP TARGET SP VERSION`.
pub fn parse_new_method_line(line: &str) -> (r: Option<NewMetaData>)
    ensures
        r is Some <==> is_request_line(line.spec_bytes()),
        r matches Some(m) ==> {
            &&& Some(m.method) == method_of(line_tokens(line.spec_bytes())[0])
            &&& m.path@ == line_tokens(line.spec_bytes())[1]
            &&& m.version@ == line_tokens(line.spec_bytes())[2]
        },
{
    method_line(line.as_bytes())
}

/// Splits a header line into its name and value.
pub fn parse_header_new(line: &[u8]) -> (r: Option<(Vec<u8>, Vec<u8>)>)
    ensures
        r is Some <==> is_header_line(line@),
        r matches Some(kv) ==> kv.0@ == split(line@, colon_sp())[0] && kv.1@ == split(
            line@,
            colon_sp(),
        )[1],
{
    let sep: [u8; 2] = [58u8, 32];
    let parts = split_bytes(line, &sep);
    proof {
        assert(sep@ =~= colon_sp());
        assert(views(parts@) == split(line@, colon_sp()));
        assert(views(parts@).len() == parts@.len());
    }
    if parts.len() != 2 {
        return None;
    }
    proof {
        assert(views(parts@)[0] == parts@[0]@);
        assert(views(parts@)[1] == parts@[1]@);
    }
    Some((slice_to_vec(parts[0].as_slice()), slice_to_vec(parts[1].as_slice())))
}

/// Splits a query pair into its name and value.
fn split_pair(p: &[u8]) -> (r: Option<(Vec<u8>, Vec<u8>)>)
    ensures
        r matches Some(kv) ==> query_pair(p@) == Some((kv.0@, kv.1@)),
        r is None ==> query_pair(p@) is None,
{
    let sep: [u8; 1] = [61u8];
    let parts = split_bytes(p, &sep);
    proof {
        assert(sep@ =~= eq_sign());
        assert(views(parts@) == split(p@, eq_sign()));
        assert(views(parts@).len() == parts@.len());
    }
    if parts.len() != 2 {
        return None;
    }
    proof {
        assert(views(parts@)[0] == parts@[0]@);
        assert(views(parts@)[1] == parts@[1]@);
    }
    Some((slice_to_vec(parts[0].as_slice()), slice_to_vec(parts[1].as_slice())))
}

/// Reads a query string (what follows `?`) into its `name=value` pairs.
/// A pair that does not split into exactly a name and a value is dropped;
/// no query results when none is left.
pub fn parse_params_from_path(q: &[u8]) -> (r: Option<FieldMap>)
    ensures
        r is None <==> query_of(q@) is None,
        r matches Some(m) ==> query_of(q@) == Some(m.pairs()),
{
    let sep: [u8; 1] = [38u8];
    let parts = split_bytes(q, &sep);
    proof {
        assert(sep@ =~= amp());
        assert(views(parts@) == split(q@, amp()));
    }
    let ghost ps = views(parts@);
    let mut map = FieldMap::new();
    let mut i: usize = 0;
    while i < parts.len()
        invariant
            ps == views(parts@),
            0 <= i <= parts@.len(),
            map.pairs() == query_pairs(ps.subrange(0, i as int)),
        decreases parts@.len() - i,
    {
        let kv = split_pair(parts[i].as_slice());
        proof {
            assert(ps.subrange(0, i + 1).drop_last() =~= ps.subrange(0, i as int));
            assert(ps.subrange(0, i + 1).last() == parts@[i as int]@);
        }
        match kv {
            Some(kv) => {
                map.insert(kv.0, kv.1);
            },
            None => {},
        }
        i = i + 1;
    }
    assert(ps.subrange(0, parts@.len() as int) =~= ps);
    if map.len() == 0 {
        None
    } else {
        Some(map)
    }
}

/// A form pair: the first two pieces of `p` split on `=`, when there are two.
pub open spec fn form_pair(p: Seq<u8>) -> Option<(Seq<u8>, Seq<u8>)> {
    let t = split(p, eq_sign());
    if t.len() >= 2 {
        Some((t[0], t[1]))
    } else {
        None
    }
}

/// The form pairs among `ps`, in order.
pub open spec fn form_pairs(ps: Seq<Seq<u8>>) -> Seq<(Seq<u8>, Seq<u8>)>
    decreases ps.len(),
{
    if ps.len() == 0 {
        seq![]
    } else {
        let rest = form_pairs(ps.drop_last());
        match form_pair(ps.last()) {
            Some(kv) => rest.push(kv),
            None => rest,
        }
    }
}

/// Reads an `application/x-www-form-urlencoded` body: its `&`-separated
/// pairs that have a `=`; none when no pair has one.
pub fn parse_params(inpt: &[u8]) -> (r: Option<ContentType>)
    ensures
        form_pairs(split(inpt@, amp())).len() == 0 ==> r is None,
        form_pairs(split(inpt@, amp())).len() > 0 ==> (r matches Some(ContentType::UrlEncoded(m))
            && m.pairs() == form_pairs(split(inpt@, amp()))),
{
    let sep: [u8; 1] = [38u8];
    let eq: [u8; 1] = [61u8];
    let parts = split_bytes(inpt, &sep);
    proof {
        assert(sep@ =~= amp());
        assert(eq@ =~= eq_sign());
    }
    let ghost ps = views(parts@);
    let mut map = FieldMap::new();
    let mut i: usize = 0;
    while i < parts.len()
        invariant
            ps == views(parts@),
            eq@ == eq_sign(),
            0 <= i <= parts@.len(),
            map.pairs() == form_pairs(ps.subrange(0, i as int)),
        decreases parts@.len() - i,
    {
        let kv = split_bytes(parts[i].as_slice(), &eq);
        proof {
            assert(ps.subrange(0, i + 1).drop_last() =~= ps.subrange(0, i as int));
            assert(ps.subrange(0, i + 1).last() == parts@[i as int]@);
            assert(views(kv@).len() == kv@.len());
        }
        if kv.len() >= 2 {
            assert(views(kv@)[0] == kv@[0]@);
            assert(views(kv@)[1] == kv@[1]@);
            map.insert(slice_to_vec(kv[0].as_slice()), slice_to_vec(kv[1].as_slice()));
        }
        i = i + 1;
    }
    assert(ps.subrange(0, parts@.len() as int) =~= ps);
    if map.len() == 0 {
        None
    } else {
        Some(ContentType::UrlEncoded(map))
    }
}

/// Reads a JSON body: its first line, unless that is empty.
pub fn parse_json(inpt: &[u8]) -> (r: Option<ContentType>)
    ensures
        split(inpt@, seq![10u8])[0].len() == 0 ==> r is None,
        split(inpt@, seq![10u8])[0].len() > 0 ==> (r matches Some(ContentType::Json(t)) && t@
            == split(inpt@, seq![10u8])[0]),
{
    let nl: [u8; 1] = [10u8];
    assert(nl@ =~= seq![10u8]);
    let parts = split_bytes(inpt, &nl);
    assert(views(parts@)[0] == parts@[0]@);
    if parts[0].len() == 0 {
        None
    } else {
        Some(ContentType::Json(slice_to_vec(parts[0].as_slice())))
    }
}

/// Reads a text body up to its first NUL byte, which must be exactly
/// `lenght` bytes and not empty.
pub fn parse_body(inpt: &[u8], lenght: u32) -> (r: Option<Body>)
    ensures
        ({
            let t = split(inpt@, seq![0u8])[0];
            &&& (t.len() == lenght && t.len() > 0) ==> (r matches Some(Body::Text(b)) && b@ == t)
            &&& !(t.len() == lenght && t.len() > 0) ==> r is None
        }),
{
    let nul: [u8; 1] = [0u8];
    assert(nul@ =~= seq![0u8]);
    let parts = split_bytes(inpt, &nul);
    assert(views(parts@)[0] == parts@[0]@);
    if parts[0].len() as u64 != lenght as u64 {
        return None;
    }
    if parts[0].len() == 0 {
        return None;
    }
    Some(Body::Text(slice_to_vec(parts[0].as_slice())))
}

/// The bytes of `application/x-www-form-urlencoded`.
pub open spec fn form_type() -> Seq<u8> {
    seq![97u8, 112, 112, 108, 105, 99, 97, 116, 105, 111, 110, 47, 120, 45, 119, 119, 119, 45, 102,
        111, 114, 109, 45, 117, 114, 108, 101, 110, 99, 111, 100, 101, 100]
}

/// The bytes of `application/json`.
pub open spec fn json_type() -> Seq<u8> {
    seq![97u8, 112, 112, 108, 105, 99, 97, 116, 105, 111, 110, 47, 106, 115, 111, 110]
}

/// Reads a text body according to its content type: a form or JSON; any
/// other type, or a body that is not text, gives nothing.
pub fn parse_body_new(inpt: Body, content_type: &[u8]) -> (r: Option<ContentType>)
    ensures
        match inpt {
            Body::Text(t) => if content_type@ == form_type() {
                (form_pairs(split(t@, amp())).len() == 0 ==> r is None) && (form_pairs(
                    split(t@, amp()),
                ).len() > 0 ==> (r matches Some(ContentType::UrlEncoded(m)) && m.pairs()
                    == form_pairs(split(t@, amp()))))
            } else if content_type@ == json_type() {
                (split(t@, seq![10u8])[0].len() == 0 ==> r is None) && (split(t@, seq![10u8])[0].len()
                    > 0 ==> (r matches Some(ContentType::Json(j)) && j@ == split(t@, seq![10u8])[0]))
            } else {
                r is None
            },
            _ => r is None,
        },
{
    let form: [u8; 33] = [97u8, 112, 112, 108, 105, 99, 97, 116, 105, 111, 110, 47, 120, 45, 119,
        119, 119, 45, 102, 111, 114, 109, 45, 117, 114, 108, 101, 110, 99, 111, 100, 101, 100];
    let json: [u8; 16] = [97u8, 112, 112, 108, 105, 99, 97, 116, 105, 111, 110, 47, 106, 115, 111, 110];
    assert(form@ =~= form_type());
    assert(json@ =~= json_type());
    let text = match inpt {
        Body::Text(t) => t,
        _ => return None,
    };
    if bytes_eq(content_type, &form) {
        parse_params(text.as_slice())
    } else if bytes_eq(content_type, &json) {
        parse_json(text.as_slice())
    } else {
        None
    }
}

/// Reads a header line, with its name in lower case and its value as sent.
pub fn parse_header(inpt: &[u8]) -> (r: Option<Header>)
    ensures
        r is Some <==> is_header_line(inpt@),
        r matches Some(h) ==> h.key@ == lower(split(inpt@, colon_sp())[0]) && h.val@ == split(
            inpt@,
            colon_sp(),
        )[1],
{
    match parse_header_new(inpt) {
        Some(kv) => Some(Header { key: to_lower(kv.0.as_slice()), val: kv.1 }),
        None => None,
    }
}

/// Reads a line after the request line; no line kind is recognized.
pub fn parse_line() -> (r: Option<TypeOfData>)
    ensures
        r is None,
{
    None
}

/// Reads a request line into its three tokens, keeping the method as text.
pub fn parse_method_line(inpt: &[u8]) -> (r: Option<MetaData>)
    ensures
        r is Some <==> line_tokens(inpt@).len() == 3,
        r matches Some(m) ==> m.method@ == line_tokens(inpt@)[0] && m.path@ == line_tokens(inpt@)[1]
            && m.version@ == line_tokens(inpt@)[2],
{
    let sep: [u8; 1] = [32u8];
    let parts = split_bytes(inpt, &sep);
    proof {
        assert(sep@ =~= sp());
        assert(views(parts@) == line_tokens(inpt@));
        assert(views(parts@).len() == parts@.len());
    }
    if parts.len() != 3 {
        return None;
    }
    proof {
        assert(views(parts@)[0] == parts@[0]@);
        assert(views(parts@)[1] == parts@[1]@);
        assert(views(parts@)[2] == parts@[2]@);
    }
    Some(MetaData {
        method: slice_to_vec(parts[0].as_slice()),
        path: slice_to_vec(parts[1].as_slice()),
        version: slice_to_vec(parts[2].as_slice()),
    })
}

/// Whether `serde_json` reads the bytes `b` as a JSON text.
pub uninterp spec fn json_parses(b: Seq<u8>) -> bool;

/// Relies on `serde_json::from_slice`: the JSON value a text holds, or the
/// error that stopped its parsing; which of the two depends on the bytes
/// alone.
#[verifier::external_body]
pub(crate) fn json_value(b: &[u8]) -> (r: Result<serde_json::Value, serde_json::Error>)
    ensures
        r is Ok <==> json_parses(b@),
{
    serde_json::from_slice(b)
}

/// Why a request body could not be read as JSON.
#[derive(Clone, Copy, Debug, PartialEq, Eq, Structural)]
pub enum BodyError {
    /// The request has no body.
    Missing,
    /// The body is not a JSON text.
    Malformed,
    /// The body was read as something other than JSON.
    WrongType,
}

/// Maps the outcome of parsing a body as JSON to this library's errors.
pub fn body_value(parsed: Result<serde_json::Value, serde_json::Error>) -> (r: Result<serde_json::Value, BodyError>)
    ensures
        match parsed {
            Ok(v) => r == Ok::<serde_json::Value, BodyError>(v),
            Err(_) => r == Err::<serde_json::Value, BodyError>(BodyError::Malformed),
        },
{
    match parsed {
        Ok(v) => Ok(v),
        Err(_) => Err(BodyError::Malformed),
    }
}

impl NewRequestType {
    /// The body read as a JSON value.
    pub fn json_body(&self) -> (r: Result<serde_json::Value, BodyError>)
        ensures
            self.body is None <==> r == Err::<serde_json::Value, BodyError>(BodyError::Missing),
            self.body matches Some(b) ==> (r is Ok <==> json_parses(b@)) && (r is Err ==> r
                == Err::<serde_json::Value, BodyError>(BodyError::Malformed)),
    {
        match &self.body {
            None => Err(BodyError::Missing),
            Some(b) => body_value(json_value(b.as_slice())),
        }
    }
}

impl Request {
    /// The body read as a JSON value, when it was read as JSON.
    pub fn json_body(&self) -> (r: Result<serde_json::Value, BodyError>)
        ensures
            self.body is None ==> r == Err::<serde_json::Value, BodyError>(BodyError::Missing),
            self.body matches Some(c) ==> match c {
                ContentType::Json(t) => (r is Ok <==> json_parses(t@)) && (r is Err ==> r == Err::<
                    serde_json::Value,
                    BodyError,
                >(BodyError::Malformed)),
                _ => r == Err::<serde_json::Value, BodyError>(BodyError::WrongType),
            },
    {
        match &self.body {
            None => Err(BodyError::Missing),
            Some(ContentType::Json(t)) => body_value(json_value(t.as_slice())),
            Some(_) => Err(BodyError::WrongType),
        }
    }
}

/// A request line that is not empty and does not have exactly three tokens
/// is rejected as malformed.
pub proof fn lemma_wrong_arity_rejected(s: Seq<u8>)
    requires
        request_line(s).len() > 0,
        line_tokens(request_line(s)).len() != 3,
    ensures
        parse_error(s) == Some(ParseError::NotValidRequest),
{
}

/// Lines joined by CRLF.
pub open spec fn join_lines(ls: Seq<Seq<u8>>) -> Seq<u8>
    decreases ls.len(),
{
    if ls.len() <= 1 {
        if ls.len() == 0 { seq![] } else { ls[0] }
    } else {
        ls[0] + crlf() + join_lines(ls.drop_first())
    }
}

/// A request line.
pub open spec fn render_line(m: Seq<u8>, t: Seq<u8>, v: Seq<u8>) -> Seq<u8> {
    m + sp() + t + sp() + v
}

/// A header line.
pub open spec fn render_header(name: Seq<u8>, value: Seq<u8>) -> Seq<u8> {
    name + colon_sp() + value
}

/// A request message: its lines, a blank line, then the body.
pub open spec fn render_request(line: Seq<u8>, hls: Seq<Seq<u8>>, body: Seq<u8>) -> Seq<u8> {
    join_lines(seq![line] + hls) + blank_line() + body
}

#[verifier::spinoff_prover]
#[verifier::rlimit(40)]
proof fn lemma_split_lines(ls: Seq<Seq<u8>>)
    requires
        ls.len() >= 1,
        forall|k: int| 0 <= k < ls.len() ==> free_of(#[trigger] ls[k], 13u8),
    ensures
        split(join_lines(ls), crlf()) == ls,
    decreases ls.len(),
{
    if ls.len() == 1 {
        assert forall|i: int| 0 <= i implies !occurs_at(ls[0], crlf(), i) by {
            if occurs_at(ls[0], crlf(), i) {
                assert(ls[0].subrange(i, i + 2)[0] == 13u8);
            }
        }
        lemma_split_none(ls[0], crlf());
        assert(seq![ls[0]] =~= ls);
    } else {
        let x = ls[0];
        let rest = ls.drop_first();
        let s = x + crlf() + join_lines(rest);
        assert forall|i: int| 0 <= i < x.len() implies !occurs_at(s, crlf(), i) by {
            if occurs_at(s, crlf(), i) {
                assert(s.subrange(i, i + 2)[0] == 13u8);
                assert(s[i] == x[i]);
            }
        }
        lemma_split_once(x, crlf(), join_lines(rest));
        assert forall|k: int| 0 <= k < rest.len() implies free_of(#[trigger] rest[k], 13u8) by {
            assert(rest[k] == ls[k + 1]);
        }
        lemma_split_lines(rest);
        assert(seq![x] + rest =~= ls);
    }
}

/// `join_lines(ls)` starts with the first line.
proof fn lemma_join_starts(ls: Seq<Seq<u8>>)
    requires
        ls.len() >= 1,
    ensures
        join_lines(ls).len() >= ls[0].len(),
        forall|i: int| 0 <= i < ls[0].len() ==> join_lines(ls)[i] == ls[0][i],
{
}

/// The blank line right after the lines is the first one in the message.
proof fn lemma_no_early_blank(ls: Seq<Seq<u8>>, body: Seq<u8>)
    requires
        ls.len() >= 1,
        forall|k: int| 0 <= k < ls.len() ==> free_of(#[trigger] ls[k], 13u8) && ls[k].len() > 0,
    ensures
        forall|i: int| 0 <= i < join_lines(ls).len() ==> !occurs_at(join_lines(ls) + blank_line() + body, blank_line(), i),
    decreases ls.len(),
{
    let s = join_lines(ls) + blank_line() + body;
    let x = ls[0];
    assert forall|i: int| 0 <= i < x.len() implies !occurs_at(s, blank_line(), i) by {
        lemma_join_starts(ls);
        if occurs_at(s, blank_line(), i) {
            assert(s.subrange(i, i + 4)[0] == 13u8);
            assert(s[i] == join_lines(ls)[i]);
        }
    }
    if ls.len() > 1 {
        let rest = ls.drop_first();
        assert forall|k: int| 0 <= k < rest.len() implies free_of(#[trigger] rest[k], 13u8) && rest[k].len() > 0 by {
            assert(rest[k] == ls[k + 1]);
        }
        lemma_no_early_blank(rest, body);
        let p = x + crlf();
        let s2 = join_lines(rest) + blank_line() + body;
        assert(s =~= p + s2);
        lemma_join_starts(rest);
        assert(rest[0].len() > 0);
        assert(s2[0] == rest[0][0]);
        assert forall|i: int| x.len() <= i < join_lines(ls).len() implies !occurs_at(s, blank_line(), i) by {
            if i == x.len() {
                if occurs_at(s, blank_line(), i) {
                    assert(s.subrange(i, i + 4)[2] == 13u8);
                    assert(s[i + 2] == s2[0]);
                    assert(free_of(rest[0], 13u8));
                }
            } else if i == x.len() + 1 {
                if occurs_at(s, blank_line(), i) {
                    assert(s.subrange(i, i + 4)[0] == 13u8);
                    assert(s[i] == 10u8);
                }
            } else {
                lemma_occurs_shift(p, s2, blank_line(), i - p.len());
            }
        }
    }
}

/// A request line made of space-free tokens splits back into them.
proof fn lemma_line_tokens(m: Seq<u8>, t: Seq<u8>, v: Seq<u8>)
    requires
        method_of(m) is Some,
        free_of(t, 32u8),
        free_of(v, 32u8),
    ensures
        line_tokens(render_line(m, t, v)) == seq![m, t, v],
{
    let line = render_line(m, t, v);
    // the method tokens are free of spaces and carriage returns
    assert(free_of(m, 32u8) && free_of(m, 13u8)) by {
        reveal_with_fuel(method_of, 1);
    }
    // the request line
    let s1 = m + sp() + (t + sp() + v);
    assert(line =~= s1);
    assert forall|i: int| 0 <= i < m.len() implies !occurs_at(s1, sp(), i) by {
        if occurs_at(s1, sp(), i) {
            assert(s1.subrange(i, i + 1)[0] == 32u8);
            assert(s1[i] == m[i]);
        }
    }
    lemma_split_once(m, sp(), t + sp() + v);
    let s2 = t + sp() + v;
    assert forall|i: int| 0 <= i < t.len() implies !occurs_at(s2, sp(), i) by {
        if occurs_at(s2, sp(), i) {
            assert(s2.subrange(i, i + 1)[0] == 32u8);
            assert(s2[i] == t[i]);
        }
    }
    lemma_split_once(t, sp(), v);
    assert forall|i: int| 0 <= i implies !occurs_at(v, sp(), i) by {
        if occurs_at(v, sp(), i) {
            assert(v.subrange(i, i + 1)[0] == 32u8);
        }
    }
    lemma_split_none(v, sp());
    assert(line_tokens(line) =~= seq![m, t, v]);
}

/// Header lines made of a colon-free name and a value without `": "` split
/// back into them.
proof fn lemma_header_splits(names: Seq<Seq<u8>>, values: Seq<Seq<u8>>)
    requires
        names.len() == values.len(),
        forall|k: int| 0 <= k < names.len() ==> free_of(#[trigger] names[k], 58u8),
        forall|k: int, j: int| 0 <= k < values.len() ==> !#[trigger] occurs_at(values[k], colon_sp(), j),
    ensures
        forall|k: int| 0 <= k < names.len() ==> split(
            #[trigger] render_header(names[k], values[k]),
            colon_sp(),
        ) == seq![names[k], values[k]],
{
    let hls = Seq::new(names.len(), |k: int| render_header(names[k], values[k]));
    // the header lines
    assert forall|k: int| 0 <= k < hls.len() implies split(#[trigger] render_header(names[k], values[k]), colon_sp()) == seq![names[k], values[k]] by {
        let n = names[k];
        let w = values[k];
        let s3 = n + colon_sp() + w;
        assert(hls[k] == s3);
        assert forall|i: int| 0 <= i < n.len() implies !occurs_at(s3, colon_sp(), i) by {
            if occurs_at(s3, colon_sp(), i) {
                assert(s3.subrange(i, i + 2)[0] == 58u8);
                assert(s3[i] == n[i]);
            }
        }
        lemma_split_once(n, colon_sp(), w);
        lemma_split_none(w, colon_sp());
    }
}

/// A target without `?` is all path.
proof fn lemma_no_query(t: Seq<u8>)
    ensures
        free_of(t, 63u8) ==> target_path(t) == t,
{
    if free_of(t, 63u8) {
        assert forall|i: int| 0 <= i implies !occurs_at(t, qmark(), i) by {
            if occurs_at(t, qmark(), i) {
                assert(t.subrange(i, i + 1)[0] == 63u8);
            }
        }
        assert(!exists|i: int| first_from(t, qmark(), 0, i));
        assert(target_path(t) == t);
    }
}

/// What a well-formed request's lines, headers and body come out as.
#[verifier::spinoff_prover]
#[verifier::rlimit(100)]
proof fn lemma_rendered(
    m: Seq<u8>,
    t: Seq<u8>,
    v: Seq<u8>,
    names: Seq<Seq<u8>>,
    values: Seq<Seq<u8>>,
    body: Seq<u8>,
)
    requires
        method_of(m) is Some,
        free_of(t, 32u8) && free_of(t, 13u8),
        free_of(v, 32u8) && free_of(v, 13u8),
        names.len() == values.len(),
        forall|k: int| 0 <= k < names.len() ==> free_of(#[trigger] names[k], 58u8) && free_of(names[k], 13u8),
        forall|k: int| 0 <= k < values.len() ==> free_of(#[trigger] values[k], 13u8),
        forall|k: int, j: int| 0 <= k < values.len() ==> !#[trigger] occurs_at(values[k], colon_sp(), j),
    ensures
        ({
            let raw = render_request(
                render_line(m, t, v),
                Seq::new(names.len(), |k: int| render_header(names[k], values[k])),
                body,
            );
            &&& request_line(raw) == render_line(m, t, v)
            &&& line_tokens(request_line(raw)) == seq![m, t, v]
            &&& header_pairs(raw) == Seq::new(names.len(), |k: int| (lower(names[k]), values[k]))
            &&& body_of(raw) == body
            &&& (free_of(t, 63u8) ==> target_path(t) == t)
        }),
{
    let line = render_line(m, t, v);
    let hls = Seq::new(names.len(), |k: int| render_header(names[k], values[k]));
    let ls = seq![line] + hls;
    let raw = render_request(line, hls, body);
    lemma_line_tokens(m, t, v);
    assert(free_of(m, 13u8)) by {
        reveal_with_fuel(method_of, 1);
    }
    // the lines of the message
    assert forall|k: int| 0 <= k < ls.len() implies free_of(#[trigger] ls[k], 13u8) && ls[k].len() > 0 by {
        if k > 0 {
            assert(ls[k] == render_header(names[k - 1], values[k - 1]));
        } else {
            assert(line[m.len() as int] == 32u8);
        }
    }
    lemma_no_early_blank(ls, body);
    let j = join_lines(ls);
    assert(raw.subrange(j.len() as int, j.len() as int + 4) =~= blank_line());
    assert(first_from(raw, blank_line(), 0, j.len() as int));
    lemma_next_at(raw, blank_line(), 0, j.len() as int);
    assert(head_of(raw) =~= j);
    assert(body_of(raw) =~= body);
    lemma_split_lines(ls);
    assert(lines_of(raw) == ls);
    assert(request_line(raw) == line);
    lemma_header_splits(names, values);
    assert forall|k: int| 0 <= k < hls.len() implies split(#[trigger] hls[k], colon_sp()) == seq![names[k], values[k]] by {
        assert(hls[k] == render_header(names[k], values[k]));
    }
    assert forall|k: int| 1 <= k <= ls.len() implies header_end(ls, k) == ls.len() by {
        lemma_header_end_all(ls, k);
    }
    assert(ls.subrange(1, ls.len() as int) =~= hls);
    assert(header_pairs(raw) =~= Seq::new(names.len(), |k: int| (lower(names[k]), values[k])));
    lemma_no_query(t);
    assert(line_tokens(request_line(raw)) == seq![m, t, v]);
}

/// Parsing a well-formed request succeeds and gives back what it was made
/// of: the method, the target's path, the version, the headers with their
/// names in lower case, and the body.
pub proof fn lemma_parse_round_trip(
    m: Seq<u8>,
    t: Seq<u8>,
    v: Seq<u8>,
    names: Seq<Seq<u8>>,
    values: Seq<Seq<u8>>,
    body: Seq<u8>,
)
    requires
        method_of(m) is Some,
        free_of(t, 32u8) && free_of(t, 13u8),
        free_of(v, 32u8) && free_of(v, 13u8),
        names.len() == values.len(),
        forall|k: int| 0 <= k < names.len() ==> free_of(#[trigger] names[k], 58u8) && free_of(names[k], 13u8),
        forall|k: int| 0 <= k < values.len() ==> free_of(#[trigger] values[k], 13u8),
        forall|k: int, j: int| 0 <= k < values.len() ==> !#[trigger] occurs_at(values[k], colon_sp(), j),
    ensures
        ({
            let raw = render_request(
                render_line(m, t, v),
                Seq::new(names.len(), |k: int| render_header(names[k], values[k])),
                body,
            );
            &&& parse_error(raw) is None
            &&& forall|req: NewRequestType| #[trigger] parsed_as(raw, req) ==> {
                &&& Some(req.metadata.method) == method_of(m)
                &&& req.metadata.path@ == target_path(t)
                &&& (free_of(t, 63u8) ==> req.metadata.path@ == t)
                &&& req.metadata.version@ == v
                &&& req.headers.pairs() == Seq::new(names.len(), |k: int| (lower(names[k]), values[k]))
                &&& (body.len() == 0 ==> req.body is None)
                &&& (body.len() > 0 ==> (req.body matches Some(b) && b@ == body))
            }
        }),
{
    lemma_rendered(m, t, v, names, values, body);
    let raw = render_request(
        render_line(m, t, v),
        Seq::new(names.len(), |k: int| render_header(names[k], values[k])),
        body,
    );
    assert(render_line(m, t, v)[m.len() as int] == 32u8);
}

/// From `i` on, every line is a header line: the run reaches the end.
proof fn lemma_header_end_all(ls: Seq<Seq<u8>>, i: int)
    requires
        1 <= i <= ls.len(),
        forall|k: int| 1 <= k < ls.len() ==> is_header_line(#[trigger] ls[k]),
    ensures
        header_end(ls, i) == ls.len(),
    decreases ls.len() - i,
{
    if i < ls.len() {
        lemma_header_end_all(ls, i + 1);
    }
}

/// Splits a request target at its first `?` into the path and the query.
fn split_target(t: &[u8]) -> (r: (Vec<u8>, Option<FieldMap>))
    ensures
        r.0@ == target_path(t@),
        match target_query(t@) {
            Some(ps) => r.1 matches Some(p) && p.pairs() == ps,
            None => r.1 is None,
        },
{
    let n = t.len();
    let qm: [u8; 1] = [63u8];
    assert(qm@ =~= qmark());
    match find_from(t, &qm, 0) {
        Some(q) => {
            assert(first_from(t@, qm@, 0, q as int));
            assert(occurs_at(t@, qm@, q as int));
            assert(q < n);
            let path = copy_range(t, 0, q);
            let query = copy_range(t, q + 1, n);
            (path, parse_params_from_path(query.as_slice()))
        },
        None => (slice_to_vec(t), None),
    }
}

/// Parses one request message: the request line, the run of header lines
/// after it, and the bytes after the blank line as the body.
pub fn parse_request(input: &[u8]) -> (r: Result<NewRequestType, ParseError>)
    ensures
        match r {
            Ok(req) => parse_error(input@) is None && parsed_as(input@, req),
            Err(e) => parse_error(input@) == Some(e),
        },
{
    let s = input;
    let n = s.len();
    let blank: [u8; 4] = [13u8, 10, 13, 10];
    proof {
        assert(blank@ =~= blank_line());
    }
    let (head_end, body_start) = match find_from(s, &blank, 0) {
        Some(k) => {
            assert(first_from(s@, blank@, 0, k as int));
            assert(blank@.len() == 4);
            assert(k + 4 <= n);
            (k, k + 4)
        },
        None => (s.len(), s.len()),
    };
    let head = &s[0..head_end];
    proof {
        assert(head@ == head_of(s@));
    }
    let crlf_sep: [u8; 2] = [13u8, 10];
    let lines = split_bytes(head, &crlf_sep);
    let ghost ls = views(lines@);
    proof {
        assert(crlf_sep@ =~= crlf());
        assert(ls == lines_of(s@));
        assert(ls[0] == lines@[0]@);
    }
    if lines[0].len() == 0 {
        return Err(ParseError::Empty);
    }
    let meta = match method_line(lines[0].as_slice()) {
        Some(m) => m,
        None => return Err(ParseError::NotValidRequest),
    };
    let ghost t = line_tokens(request_line(s@));
    // the target: its path and its query string
    let (path, params) = split_target(meta.path.as_slice());
    // the headers: every header line up to the first other line
    let mut headers = FieldMap::new();
    let mut i: usize = 1;
    let mut more = true;
    while more && i < lines.len()
        invariant
            ls == views(lines@),
            1 <= i <= lines@.len(),
            !more ==> i < ls.len() && !is_header_line(ls[i as int]),
            header_end(ls, 1) == header_end(ls, i as int),
            forall|j: int| 1 <= j < i ==> is_header_line(#[trigger] ls[j]),
            headers.pairs() == ls.subrange(1, i as int).map_values(|l: Seq<u8>| header_pair(l)),
        decreases lines@.len() - i + (if more { 1int } else { 0int }),
    {
        assert(ls[i as int] == lines@[i as int]@);
        match parse_header_new(lines[i].as_slice()) {
            Some(kv) => {
                let name = to_lower(kv.0.as_slice());
                headers.insert(name, kv.1);
                proof {
                    assert(ls.subrange(1, i + 1).map_values(|l: Seq<u8>| header_pair(l))
                        =~= ls.subrange(1, i as int).map_values(|l: Seq<u8>| header_pair(l)).push(
                        header_pair(ls[i as int])));
                }
                i = i + 1;
            },
            None => {
                more = false;
            },
        }
    }
    proof {
        assert(header_end(ls, i as int) == i as int);
    }
    let body = if body_start < s.len() {
        Some(copy_range(s, body_start, s.len()))
    } else {
        None
    };
    let req = NewRequestType {
        metadata: NewMetaData { method: meta.method, path, version: meta.version },
        body,
        headers,
        params,
    };
    Ok(req)
}

} // verus!
