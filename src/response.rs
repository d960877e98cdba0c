//! The response encoder: response values to HTTP/1.1 messages.
use vstd::prelude::*;
use vstd::slice::slice_to_vec;
use vstd::utf8::encode_utf8;
use crate::fields::FieldMap;
use crate::text::{decimal, upper, views, append_bytes, decimal_bytes, to_upper};

verus! {

/// The canonical reason phrase of a status code, as the `http` crate
/// registers it (`Not Found` for 404).
pub uninterp spec fn canonical_reason_of(code: u16) -> Option<Seq<char>>;

/// Relies on `http::StatusCode::from_u16` and `StatusCode::canonical_reason`:
/// the reason phrase registered for a code, which depends on the code alone;
/// codes outside 100..1000 are not status codes.
#[verifier::external_body]
fn canonical_reason(code: u16) -> (r: Option<&'static str>)
    ensures
        r is Some <==> canonical_reason_of(code) is Some,
        r matches Some(t) ==> t@ == canonical_reason_of(code)->0,
        (code < 100 || code >= 1000) ==> r is None,
{
    match http::StatusCode::from_u16(code) {
        Ok(s) => s.canonical_reason(),
        Err(_) => None,
    }
}

/// The bytes of `HTTP/1.1 `.
pub open spec fn http_version() -> Seq<u8> {
    seq![72u8, 84, 84, 80, 47, 49, 46, 49, 32]
}

fn http_version_bytes() -> (r: Vec<u8>)
    ensures
        r@ == http_version(),
{
    let a: [u8; 9] = [72u8, 84, 84, 80, 47, 49, 46, 49, 32];
    let r = slice_to_vec(&a);
    assert(r@ =~= http_version());
    r
}

/// The bytes of `Content-Length: `.
pub open spec fn content_length() -> Seq<u8> {
    seq![67u8, 111, 110, 116, 101, 110, 116, 45, 76, 101, 110, 103, 116, 104, 58, 32]
}

fn content_length_bytes() -> (r: Vec<u8>)
    ensures
        r@ == content_length(),
{
    let a: [u8; 16] = [67u8, 111, 110, 116, 101, 110, 116, 45, 76, 101, 110, 103, 116, 104, 58, 32];
    let r = slice_to_vec(&a);
    assert(r@ =~= content_length());
    r
}

/// The bytes of `Content-Type: `.
pub open spec fn content_type() -> Seq<u8> {
    seq![67u8, 111, 110, 116, 101, 110, 116, 45, 84, 121, 112, 101, 58, 32]
}

fn content_type_bytes() -> (r: Vec<u8>)
    ensures
        r@ == content_type(),
{
    let a: [u8; 14] = [67u8, 111, 110, 116, 101, 110, 116, 45, 84, 121, 112, 101, 58, 32];
    let r = slice_to_vec(&a);
    assert(r@ =~= content_type());
    r
}

/// The bytes of `INTERNAL SERVER ERROR`.
pub open spec fn fallback_reason() -> Seq<u8> {
    seq![73u8, 78, 84, 69, 82, 78, 65, 76, 32, 83, 69, 82, 86, 69, 82, 32, 69, 82, 82, 79, 82]
}

fn fallback_reason_bytes() -> (r: Vec<u8>)
    ensures
        r@ == fallback_reason(),
{
    let a: [u8; 21] = [73u8, 78, 84, 69, 82, 78, 65, 76, 32, 83, 69, 82, 86, 69, 82, 32, 69, 82, 82, 79, 82];
    let r = slice_to_vec(&a);
    assert(r@ =~= fallback_reason());
    r
}

/// The bytes of `text/html`.
pub open spec fn text_html() -> Seq<u8> {
    seq![116u8, 101, 120, 116, 47, 104, 116, 109, 108]
}

fn text_html_bytes() -> (r: Vec<u8>)
    ensures
        r@ == text_html(),
{
    let a: [u8; 9] = [116u8, 101, 120, 116, 47, 104, 116, 109, 108];
    let r = slice_to_vec(&a);
    assert(r@ =~= text_html());
    r
}

/// The bytes of `application/json`.
pub open spec fn app_json() -> Seq<u8> {
    seq![97u8, 112, 112, 108, 105, 99, 97, 116, 105, 111, 110, 47, 106, 115, 111, 110]
}

fn app_json_bytes() -> (r: Vec<u8>)
    ensures
        r@ == app_json(),
{
    let a: [u8; 16] = [97u8, 112, 112, 108, 105, 99, 97, 116, 105, 111, 110, 47, 106, 115, 111, 110];
    let r = slice_to_vec(&a);
    assert(r@ =~= app_json());
    r
}

/// The bytes of `Location:`.
pub open spec fn location() -> Seq<u8> {
    seq![76u8, 111, 99, 97, 116, 105, 111, 110, 58]
}

fn location_bytes() -> (r: Vec<u8>)
    ensures
        r@ == location(),
{
    let a: [u8; 9] = [76u8, 111, 99, 97, 116, 105, 111, 110, 58];
    let r = slice_to_vec(&a);
    assert(r@ =~= location());
    r
}

/// The bytes of `Set-Cookie: `.
pub open spec fn set_cookie() -> Seq<u8> {
    seq![83u8, 101, 116, 45, 67, 111, 111, 107, 105, 101, 58, 32]
}

fn set_cookie_bytes() -> (r: Vec<u8>)
    ensures
        r@ == set_cookie(),
{
    let a: [u8; 12] = [83u8, 101, 116, 45, 67, 111, 111, 107, 105, 101, 58, 32];
    let r = slice_to_vec(&a);
    assert(r@ =~= set_cookie());
    r
}

/// The bytes of ` Domain=`.
pub open spec fn domain_attr() -> Seq<u8> {
    seq![32u8, 68, 111, 109, 97, 105, 110, 61]
}

fn domain_attr_bytes() -> (r: Vec<u8>)
    ensures
        r@ == domain_attr(),
{
    let a: [u8; 8] = [32u8, 68, 111, 109, 97, 105, 110, 61];
    let r = slice_to_vec(&a);
    assert(r@ =~= domain_attr());
    r
}

/// The bytes of ` SameSite=Strict;`.
pub open spec fn same_site_strict() -> Seq<u8> {
    seq![32u8, 83, 97, 109, 101, 83, 105, 116, 101, 61, 83, 116, 114, 105, 99, 116, 59]
}

fn same_site_strict_bytes() -> (r: Vec<u8>)
    ensures
        r@ == same_site_strict(),
{
    let a: [u8; 17] = [32u8, 83, 97, 109, 101, 83, 105, 116, 101, 61, 83, 116, 114, 105, 99, 116, 59];
    let r = slice_to_vec(&a);
    assert(r@ =~= same_site_strict());
    r
}

/// The bytes of ` SameSite=Lax;`.
pub open spec fn same_site_lax() -> Seq<u8> {
    seq![32u8, 83, 97, 109, 101, 83, 105, 116, 101, 61, 76, 97, 120, 59]
}

fn same_site_lax_bytes() -> (r: Vec<u8>)
    ensures
        r@ == same_site_lax(),
{
    let a: [u8; 14] = [32u8, 83, 97, 109, 101, 83, 105, 116, 101, 61, 76, 97, 120, 59];
    let r = slice_to_vec(&a);
    assert(r@ =~= same_site_lax());
    r
}

/// The bytes of ` SameSite=None;`.
pub open spec fn same_site_none() -> Seq<u8> {
    seq![32u8, 83, 97, 109, 101, 83, 105, 116, 101, 61, 78, 111, 110, 101, 59]
}

fn same_site_none_bytes() -> (r: Vec<u8>)
    ensures
        r@ == same_site_none(),
{
    let a: [u8; 15] = [32u8, 83, 97, 109, 101, 83, 105, 116, 101, 61, 78, 111, 110, 101, 59];
    let r = slice_to_vec(&a);
    assert(r@ =~= same_site_none());
    r
}

/// The bytes of ` Secure;`.
pub open spec fn secure_attr() -> Seq<u8> {
    seq![32u8, 83, 101, 99, 117, 114, 101, 59]
}

fn secure_attr_bytes() -> (r: Vec<u8>)
    ensures
        r@ == secure_attr(),
{
    let a: [u8; 8] = [32u8, 83, 101, 99, 117, 114, 101, 59];
    let r = slice_to_vec(&a);
    assert(r@ =~= secure_attr());
    r
}

/// The bytes of ` HttpOnly;`.
pub open spec fn http_only_attr() -> Seq<u8> {
    seq![32u8, 72, 116, 116, 112, 79, 110, 108, 121, 59]
}

fn http_only_attr_bytes() -> (r: Vec<u8>)
    ensures
        r@ == http_only_attr(),
{
    let a: [u8; 10] = [32u8, 72, 116, 116, 112, 79, 110, 108, 121, 59];
    let r = slice_to_vec(&a);
    assert(r@ =~= http_only_attr());
    r
}

/// The bytes of ` Path=`.
pub open spec fn path_attr() -> Seq<u8> {
    seq![32u8, 80, 97, 116, 104, 61]
}

fn path_attr_bytes() -> (r: Vec<u8>)
    ensures
        r@ == path_attr(),
{
    let a: [u8; 6] = [32u8, 80, 97, 116, 104, 61];
    let r = slice_to_vec(&a);
    assert(r@ =~= path_attr());
    r
}

pub open spec fn crlf() -> Seq<u8> {
    seq![13u8, 10]
}

/// A response status code.
#[derive(Clone, Copy, Debug, PartialEq, Eq, Structural)]
pub struct Status(pub u16);

/// The reason phrase sent after a code: its canonical name in upper case,
/// or `INTERNAL SERVER ERROR` for a code that has none.
pub open spec fn reason(code: u16) -> Seq<u8> {
    match canonical_reason_of(code) {
        Some(t) => upper(encode_utf8(t)),
        None => fallback_reason(),
    }
}

/// Each header line followed by CRLF.
pub open spec fn header_lines(hs: Seq<Seq<u8>>) -> Seq<u8>
    decreases hs.len(),
{
    if hs.len() == 0 {
        seq![]
    } else {
        header_lines(hs.drop_last()) + hs.last() + crlf()
    }
}

/// A complete response: status line, `Content-Length`, `Content-Type` when
/// `ctype` is not empty, the other header lines, a blank line, the body.
pub open spec fn message(code: u16, ctype: Seq<u8>, headers: Seq<Seq<u8>>, body: Seq<u8>) -> Seq<u8> {
    http_version() + decimal(code as nat) + seq![32u8] + reason(code) + crlf()
        + content_length() + decimal(body.len()) + crlf()
        + (if ctype.len() == 0 { seq![] } else { content_type() + ctype + crlf() })
        + header_lines(headers) + crlf() + body
}

/// The reason phrase for `code`.
fn reason_bytes(code: u16) -> (r: Vec<u8>)
    ensures
        r@ == reason(code),
{
    match canonical_reason(code) {
        Some(t) => to_upper(t.as_bytes()),
        None => fallback_reason_bytes(),
    }
}

/// Encodes a response message.
pub fn encode(code: u16, ctype: &[u8], headers: &Vec<Vec<u8>>, body: &[u8]) -> (r: Vec<u8>)
    requires
        body@.len() <= u64::MAX,
    ensures
        r@ == message(code, ctype@, views(headers@), body@),
{
    let mut out = http_version_bytes();
    append_bytes(&mut out, decimal_bytes(code as u64).as_slice());
    out.push(32u8);
    append_bytes(&mut out, reason_bytes(code).as_slice());
    let nl: [u8; 2] = [13u8, 10];
    assert(nl@ =~= crlf());
    append_bytes(&mut out, &nl);
    append_bytes(&mut out, content_length_bytes().as_slice());
    append_bytes(&mut out, decimal_bytes(body.len() as u64).as_slice());
    append_bytes(&mut out, &nl);
    let ghost before_ct = out@;
    if ctype.len() > 0 {
        append_bytes(&mut out, content_type_bytes().as_slice());
        append_bytes(&mut out, ctype);
        append_bytes(&mut out, &nl);
    }
    let ghost hv = views(headers@);
    let ghost start = out@;
    let mut i: usize = 0;
    while i < headers.len()
        invariant
            hv == views(headers@),
            nl@ == crlf(),
            0 <= i <= headers@.len(),
            out@ == start + header_lines(hv.subrange(0, i as int)),
        decreases headers@.len() - i,
    {
        append_bytes(&mut out, headers[i].as_slice());
        append_bytes(&mut out, &nl);
        proof {
            let pre = hv.subrange(0, i + 1);
            assert(pre.drop_last() =~= hv.subrange(0, i as int));
            assert(pre.last() == headers@[i as int]@);
        }
        i = i + 1;
    }
    assert(hv.subrange(0, headers@.len() as int) =~= hv);
    append_bytes(&mut out, &nl);
    append_bytes(&mut out, body);
    assert(out@ =~= message(code, ctype@, hv, body@));
    out
}

/// What can be sent back as a response.
pub trait IntoResp {
    /// `bytes` is an encoding of this value as a response message.
    spec fn encodes(&self, bytes: Seq<u8>) -> bool;

    fn into_response(&self) -> (r: Vec<u8>)
        ensures
            self.encodes(r@),
    ;
}

/// What can be sent as one header line.
pub trait ToHeader {
    spec fn header(&self) -> Seq<u8>;

    fn to_header(&self) -> (r: Vec<u8>)
        ensures
            r@ == self.header(),
    ;
}

/// The bytes of a string slice.
fn text_bytes(t: &str) -> (r: &[u8])
    ensures
        r@ == encode_utf8(t@),
        r@.len() <= u64::MAX,
{
    let b = t.as_bytes();
    let _ = b.len();
    b
}

/// The bytes of a byte vector.
fn vec_bytes(v: &Vec<u8>) -> (r: &[u8])
    ensures
        r@ == v@,
        r@.len() <= u64::MAX,
{
    let _ = v.len();
    v.as_slice()
}

/// The header lines of a mapping: `name:value` for each pair, in order.
pub open spec fn field_lines(ps: Seq<(Seq<u8>, Seq<u8>)>) -> Seq<Seq<u8>> {
    ps.map_values(|p: (Seq<u8>, Seq<u8>)| p.0 + seq![58u8] + p.1)
}

fn field_line_vec(m: &FieldMap) -> (r: Vec<Vec<u8>>)
    ensures
        views(r@) == field_lines(m.pairs()),
{
    let mut out: Vec<Vec<u8>> = Vec::new();
    let mut i: usize = 0;
    while i < m.entries.len()
        invariant
            0 <= i <= m.entries@.len(),
            views(out@) == field_lines(m.pairs().subrange(0, i as int)),
        decreases m.entries@.len() - i,
    {
        let mut line = slice_to_vec(m.entries[i].0.as_slice());
        line.push(58u8);
        append_bytes(&mut line, m.entries[i].1.as_slice());
        let ghost lv = line@;
        assert(m.pairs()[i as int] == (m.entries@[i as int].0@, m.entries@[i as int].1@));
        assert(lv =~= m.pairs()[i as int].0 + seq![58u8] + m.pairs()[i as int].1);
        let ghost prev = out@;
        out.push(line);
        assert(views(out@) =~= views(prev).push(lv));
        proof {
            let pre = m.pairs().subrange(0, i + 1);
            assert(pre.drop_last() =~= m.pairs().subrange(0, i as int));
        }
        i = i + 1;
        assert(views(out@) =~= field_lines(m.pairs().subrange(0, i as int)));
    }
    assert(m.pairs().subrange(0, i as int) =~= m.pairs());
    out
}

impl IntoResp for Status {
    open spec fn encodes(&self, bytes: Seq<u8>) -> bool {
        bytes == message(self.0, seq![], seq![], seq![])
    }

    fn into_response(&self) -> (r: Vec<u8>) {
        let none: Vec<Vec<u8>> = Vec::new();
        assert(views(none@) =~= Seq::<Seq<u8>>::empty());
        let empty: [u8; 0] = [];
        assert(empty@ =~= Seq::<u8>::empty());
        encode(self.0, &empty, &none, &empty)
    }
}

impl IntoResp for (Status, String) {
    open spec fn encodes(&self, bytes: Seq<u8>) -> bool {
        bytes == message(self.0.0, seq![], seq![], encode_utf8(self.1@))
    }

    fn into_response(&self) -> (r: Vec<u8>) {
        let none: Vec<Vec<u8>> = Vec::new();
        assert(views(none@) =~= Seq::<Seq<u8>>::empty());
        let empty: [u8; 0] = [];
        assert(empty@ =~= Seq::<u8>::empty());
        encode(self.0.0, &empty, &none, text_bytes(self.1.as_str()))
    }
}

impl IntoResp for (Status, Vec<u8>) {
    open spec fn encodes(&self, bytes: Seq<u8>) -> bool {
        bytes == message(self.0.0, seq![], seq![], self.1@)
    }

    fn into_response(&self) -> (r: Vec<u8>) {
        let none: Vec<Vec<u8>> = Vec::new();
        assert(views(none@) =~= Seq::<Seq<u8>>::empty());
        let empty: [u8; 0] = [];
        assert(empty@ =~= Seq::<u8>::empty());
        encode(self.0.0, &empty, &none, vec_bytes(&self.1))
    }
}

impl IntoResp for (Status, FieldMap, String) {
    open spec fn encodes(&self, bytes: Seq<u8>) -> bool {
        bytes == message(self.0.0, seq![], field_lines(self.1.pairs()), encode_utf8(self.2@))
    }

    fn into_response(&self) -> (r: Vec<u8>) {
        let lines = field_line_vec(&self.1);
        let empty: [u8; 0] = [];
        assert(empty@ =~= Seq::<u8>::empty());
        encode(self.0.0, &empty, &lines, text_bytes(self.2.as_str()))
    }
}

impl IntoResp for (Status, FieldMap, Vec<u8>) {
    open spec fn encodes(&self, bytes: Seq<u8>) -> bool {
        bytes == message(self.0.0, seq![], field_lines(self.1.pairs()), self.2@)
    }

    fn into_response(&self) -> (r: Vec<u8>) {
        let lines = field_line_vec(&self.1);
        let empty: [u8; 0] = [];
        assert(empty@ =~= Seq::<u8>::empty());
        encode(self.0.0, &empty, &lines, vec_bytes(&self.2))
    }
}

/// An HTML page, sent with status 200.
pub struct Html(pub String);

impl IntoResp for Html {
    open spec fn encodes(&self, bytes: Seq<u8>) -> bool {
        bytes == message(200, text_html(), seq![], encode_utf8(self.0@))
    }

    fn into_response(&self) -> (r: Vec<u8>) {
        let none: Vec<Vec<u8>> = Vec::new();
        assert(views(none@) =~= Seq::<Seq<u8>>::empty());
        encode(200, text_html_bytes().as_slice(), &none, text_bytes(self.0.as_str()))
    }
}

impl IntoResp for &str {
    open spec fn encodes(&self, bytes: Seq<u8>) -> bool {
        bytes == message(200, seq![], seq![], encode_utf8(self@))
    }

    fn into_response(&self) -> (r: Vec<u8>) {
        let none: Vec<Vec<u8>> = Vec::new();
        assert(views(none@) =~= Seq::<Seq<u8>>::empty());
        let empty: [u8; 0] = [];
        assert(empty@ =~= Seq::<u8>::empty());
        encode(200, &empty, &none, text_bytes(*self))
    }
}

/// A redirection to another location, sent with status 302.
#[derive(Debug)]
pub struct Redirect(pub &'static str);

impl Redirect {
    pub fn new(loc: &'static str) -> (r: Self)
        ensures
            r.0 == loc,
    {
        Redirect(loc)
    }
}

impl ToHeader for Redirect {
    open spec fn header(&self) -> Seq<u8> {
        location() + encode_utf8(self.0@)
    }

    fn to_header(&self) -> (r: Vec<u8>) {
        let mut out = location_bytes();
        append_bytes(&mut out, text_bytes(self.0));
        out
    }
}

impl IntoResp for Redirect {
    open spec fn encodes(&self, bytes: Seq<u8>) -> bool {
        bytes == message(302, seq![], seq![self.header()], seq![])
    }

    fn into_response(&self) -> (r: Vec<u8>) {
        let mut lines: Vec<Vec<u8>> = Vec::new();
        lines.push(self.to_header());
        assert(views(lines@) =~= seq![self.header()]);
        let empty: [u8; 0] = [];
        assert(empty@ =~= Seq::<u8>::empty());
        encode(302, &empty, &lines, &empty)
    }
}

/// The `SameSite` attribute of a cookie.
#[derive(Clone, Copy, Debug, PartialEq, Eq, Structural)]
pub enum SameSite {
    Strict,
    Lax,
    /// Sent as `SameSite=None`.
    Unrestricted,
}

/// A cookie to set in the client.
#[derive(Debug)]
pub struct Cookie {
    pub name: &'static str,
    pub value: &'static str,
    pub domain: Option<&'static str>,
    pub same_site: Option<SameSite>,
    /// Kept for callers; not sent.
    pub expires: Option<std::time::Duration>,
    /// Kept for callers; not sent.
    pub max_age: Option<u32>,
    pub secure: bool,
    pub http_only: bool,
    pub path: Option<&'static str>,
}

impl Cookie {
    /// A cookie with only a name and a value, `Secure` and `HttpOnly`.
    pub fn new(name: &'static str, value: &'static str) -> (r: Self)
        ensures
            r.name == name,
            r.value == value,
            r.domain is None,
            r.same_site is None,
            r.expires is None,
            r.max_age is None,
            r.secure,
            r.http_only,
            r.path is None,
    {
        Cookie {
            name,
            value,
            domain: None,
            same_site: None,
            expires: None,
            max_age: None,
            secure: true,
            http_only: true,
            path: None,
        }
    }
}

pub open spec fn domain_part(d: Option<&'static str>) -> Seq<u8> {
    match d {
        Some(d) => domain_attr() + encode_utf8(d@) + seq![59u8],
        None => seq![],
    }
}

pub open spec fn same_site_part(s: Option<SameSite>) -> Seq<u8> {
    match s {
        Some(SameSite::Strict) => same_site_strict(),
        Some(SameSite::Lax) => same_site_lax(),
        Some(SameSite::Unrestricted) => same_site_none(),
        None => seq![],
    }
}

pub open spec fn path_part(p: Option<&'static str>) -> Seq<u8> {
    match p {
        Some(p) => path_attr() + encode_utf8(p@) + seq![59u8],
        None => seq![],
    }
}

pub open spec fn flag_part(on: bool, attr: Seq<u8>) -> Seq<u8> {
    if on { attr } else { seq![] }
}

/// The attributes of a cookie after `name=value;`, each as ` Attr;`.
pub open spec fn cookie_attrs(c: Cookie) -> Seq<u8> {
    domain_part(c.domain) + same_site_part(c.same_site) + flag_part(c.secure, secure_attr())
        + flag_part(c.http_only, http_only_attr()) + path_part(c.path)
}

fn push_domain(out: &mut Vec<u8>, d: Option<&'static str>)
    ensures
        final(out)@ == old(out)@ + domain_part(d),
{
    match d {
        Some(d) => {
            append_bytes(out, domain_attr_bytes().as_slice());
            append_bytes(out, text_bytes(d));
            out.push(59u8);
            assert(out@ =~= old(out)@ + domain_part(Some(d)));
        },
        None => {
            assert(out@ =~= old(out)@ + domain_part(d));
        },
    }
}

fn push_same_site(out: &mut Vec<u8>, s: Option<SameSite>)
    ensures
        final(out)@ == old(out)@ + same_site_part(s),
{
    match s {
        Some(SameSite::Strict) => append_bytes(out, same_site_strict_bytes().as_slice()),
        Some(SameSite::Lax) => append_bytes(out, same_site_lax_bytes().as_slice()),
        Some(SameSite::Unrestricted) => append_bytes(out, same_site_none_bytes().as_slice()),
        None => {
            assert(out@ =~= old(out)@ + same_site_part(s));
        },
    }
}

fn push_path(out: &mut Vec<u8>, p: Option<&'static str>)
    ensures
        final(out)@ == old(out)@ + path_part(p),
{
    match p {
        Some(p) => {
            append_bytes(out, path_attr_bytes().as_slice());
            append_bytes(out, text_bytes(p));
            out.push(59u8);
            assert(out@ =~= old(out)@ + path_part(Some(p)));
        },
        None => {
            assert(out@ =~= old(out)@ + path_part(p));
        },
    }
}

fn push_flag(out: &mut Vec<u8>, on: bool, attr: &Vec<u8>)
    ensures
        final(out)@ == old(out)@ + flag_part(on, attr@),
{
    if on {
        append_bytes(out, attr.as_slice());
    } else {
        assert(out@ =~= old(out)@ + flag_part(on, attr@));
    }
}

impl ToHeader for Cookie {
    open spec fn header(&self) -> Seq<u8> {
        set_cookie() + encode_utf8(self.name@) + seq![61u8] + encode_utf8(self.value@) + seq![59u8]
            + cookie_attrs(*self)
    }

    fn to_header(&self) -> (r: Vec<u8>) {
        let mut out = set_cookie_bytes();
        append_bytes(&mut out, text_bytes(self.name));
        out.push(61u8);
        append_bytes(&mut out, text_bytes(self.value));
        out.push(59u8);
        let ghost head = out@;
        push_domain(&mut out, self.domain);
        push_same_site(&mut out, self.same_site);
        push_flag(&mut out, self.secure, &secure_attr_bytes());
        push_flag(&mut out, self.http_only, &http_only_attr_bytes());
        push_path(&mut out, self.path);
        assert(head =~= set_cookie() + encode_utf8(self.name@) + seq![61u8] + encode_utf8(self.value@) + seq![59u8]);
        assert(out@ =~= self.header());
        out
    }
}

impl IntoResp for (Status, Cookie, String) {
    open spec fn encodes(&self, bytes: Seq<u8>) -> bool {
        bytes == message(self.0.0, seq![], seq![self.1.header()], encode_utf8(self.2@))
    }

    fn into_response(&self) -> (r: Vec<u8>) {
        let mut lines: Vec<Vec<u8>> = Vec::new();
        lines.push(self.1.to_header());
        assert(views(lines@) =~= seq![self.1.header()]);
        let empty: [u8; 0] = [];
        assert(empty@ =~= Seq::<u8>::empty());
        encode(self.0.0, &empty, &lines, text_bytes(self.2.as_str()))
    }
}

#[verifier::external_type_specification]
#[verifier::external_body]
pub struct ExJsonValue(serde_json::Value);

#[verifier::external_type_specification]
#[verifier::external_body]
pub struct ExJsonError(serde_json::Error);

/// The JSON text `serde_json` writes for a value.
pub uninterp spec fn json_text_of(v: serde_json::Value) -> Seq<u8>;

/// Relies on `serde_json::to_vec`: the JSON text of a value, which depends
/// on the value alone; writing a `Value` into a vector does not fail.
#[verifier::external_body]
fn json_text(v: &serde_json::Value) -> (r: Result<Vec<u8>, serde_json::Error>)
    ensures
        r is Ok,
        r matches Ok(t) ==> t@ == json_text_of(*v),
{
    serde_json::to_vec(v)
}

/// A JSON document, sent with status 200.
pub struct Json(pub serde_json::Value);

/// Frames the outcome of serializing a JSON document: its text with status
/// 200 and `Content-Type: application/json`, or an empty 500 response when
/// serialization failed.
pub fn json_response(text: Result<Vec<u8>, serde_json::Error>) -> (r: Vec<u8>)
    ensures
        match text {
            Ok(t) => r@ == message(200, app_json(), seq![], t@),
            Err(_) => r@ == message(500, seq![], seq![], seq![]),
        },
{
    match text {
        Ok(t) => {
            let none: Vec<Vec<u8>> = Vec::new();
            assert(views(none@) =~= Seq::<Seq<u8>>::empty());
            encode(200, app_json_bytes().as_slice(), &none, vec_bytes(&t))
        },
        Err(_) => Status(500).into_response(),
    }
}

impl IntoResp for Json {
    open spec fn encodes(&self, bytes: Seq<u8>) -> bool {
        bytes == message(200, app_json(), seq![], json_text_of(self.0))
    }

    fn into_response(&self) -> (r: Vec<u8>) {
        json_response(json_text(&self.0))
    }
}

/// Encodes a response value.
pub fn respond<R: IntoResp>(resp: R) -> (r: Vec<u8>)
    ensures
        resp.encodes(r@),
{
    resp.into_response()
}

} // verus!
