//! The request model of the form and JSON body helpers, and cookies.
use vstd::prelude::*;
use crate::fields::FieldMap;
use crate::text::{split, views, split_bytes};

verus! {

/// A header as a name and a value.
#[derive(Clone, Debug, PartialEq, Eq)]
pub struct Header {
    pub key: Vec<u8>,
    pub val: Vec<u8>,
}

/// A request body before it is interpreted.
#[derive(Clone, Debug, PartialEq, Eq)]
pub enum Body {
    Binary(Vec<u8>),
    Text(Vec<u8>),
    Empty,
}

/// A request body read according to its content type.
#[derive(Clone, Debug, PartialEq, Eq)]
pub enum ContentType {
    Json(Vec<u8>),
    UrlEncoded(FieldMap),
    PlainText(Vec<u8>),
    Binary(Vec<u8>),
    Empty,
}

/// One `name=value` pair of a query or form.
#[derive(Clone, Debug, PartialEq, Eq)]
pub struct QueryParam {
    pub key: Vec<u8>,
    pub val: Vec<u8>,
}

/// A line of a request after the request line.
#[derive(Clone, Debug, PartialEq, Eq)]
pub enum TypeOfData {
    Header(Header),
    Body(Body),
}

/// A request line with the method kept as its token.
#[derive(Clone, Debug, PartialEq, Eq)]
pub struct MetaData {
    pub method: Vec<u8>,
    pub path: Vec<u8>,
    pub version: Vec<u8>,
}

/// A parameter captured from a path.
#[derive(Clone, Debug, PartialEq, Eq)]
pub struct RouteExtract {
    pub identifier: Vec<u8>,
    pub value: Vec<u8>,
}

/// A request with its body read according to its content type.
#[derive(Clone, Debug, PartialEq, Eq)]
pub struct Request {
    pub metadata: MetaData,
    pub body: Option<ContentType>,
    pub headers: FieldMap,
}

/// A parsed request together with the parameters of its target.
#[derive(Clone, Debug, PartialEq, Eq)]
pub struct ParseRes {
    pub metadata: MetaData,
    pub extract: Option<FieldMap>,
    pub body: Option<ContentType>,
    pub headers: FieldMap,
}

/// What can be turned into a [`Request`].
pub trait ToRequest: Sized {
    /// `r` is what this value becomes.
    spec fn becomes(&self, r: Request) -> bool;

    fn to_request(self) -> (r: Request)
        ensures
            self.becomes(r),
    ;
}

impl ToRequest for ParseRes {
    open spec fn becomes(&self, r: Request) -> bool {
        r.metadata == self.metadata && r.body == self.body && r.headers == self.headers
    }

    /// Drops the target's parameters.
    fn to_request(self) -> (r: Request) {
        Request { metadata: self.metadata, body: self.body, headers: self.headers }
    }
}

/// The bytes of `cookie`.
pub open spec fn cookie_name() -> Seq<u8> {
    seq![99u8, 111, 111, 107, 105, 101]
}

/// `s` without its spaces.
pub open spec fn strip_spaces(s: Seq<u8>) -> Seq<u8>
    decreases s.len(),
{
    if s.len() == 0 {
        seq![]
    } else if s.last() == 32u8 {
        strip_spaces(s.drop_last())
    } else {
        strip_spaces(s.drop_last()).push(s.last())
    }
}

/// A cookie splits on `=` into exactly a name and a value.
pub open spec fn is_cookie(c: Seq<u8>) -> bool {
    split(c, seq![61u8]).len() == 2
}

/// The index of the first cookie at or after `i` that is malformed.
pub open spec fn cookie_end(cs: Seq<Seq<u8>>, i: int) -> int
    decreases cs.len() - i,
{
    if i < 0 || i >= cs.len() || !is_cookie(cs[i]) {
        i
    } else {
        cookie_end(cs, i + 1)
    }
}

/// A cookie as its name and value, spaces removed.
pub open spec fn cookie_pair(c: Seq<u8>) -> (Seq<u8>, Seq<u8>) {
    (strip_spaces(split(c, seq![61u8])[0]), strip_spaces(split(c, seq![61u8])[1]))
}

/// The cookies of a `Cookie` header value: the `;`-separated pairs up to
/// the first malformed one.
pub open spec fn cookie_pairs(v: Seq<u8>) -> Seq<(Seq<u8>, Seq<u8>)> {
    let cs = split(v, seq![59u8]);
    cs.subrange(0, cookie_end(cs, 0)).map_values(|c: Seq<u8>| cookie_pair(c))
}

fn without_spaces(s: &[u8]) -> (r: Vec<u8>)
    ensures
        r@ == strip_spaces(s@),
{
    let mut out: Vec<u8> = Vec::new();
    let mut i: usize = 0;
    while i < s.len()
        invariant
            0 <= i <= s@.len(),
            out@ == strip_spaces(s@.subrange(0, i as int)),
        decreases s@.len() - i,
    {
        proof {
            let pre = s@.subrange(0, i + 1);
            assert(pre.drop_last() =~= s@.subrange(0, i as int));
        }
        if s[i] != 32u8 {
            out.push(s[i]);
        }
        i = i + 1;
    }
    assert(s@.subrange(0, s@.len() as int) =~= s@);
    out
}

impl Request {
    /// The cookies the client sent in its `cookie` header, up to the first
    /// malformed one; none without such a header.
    pub fn cookies(&self) -> (r: Option<FieldMap>)
        ensures
            !self.headers@.contains_key(cookie_name()) ==> r is None,
            self.headers@.contains_key(cookie_name()) ==> (r matches Some(m) && m.pairs()
                == cookie_pairs(self.headers@[cookie_name()])),
    {
        let name: [u8; 6] = [99u8, 111, 111, 107, 105, 101];
        assert(name@ =~= cookie_name());
        let v = match self.headers.get(&name) {
            Some(v) => v,
            None => return None,
        };
        let semi: [u8; 1] = [59u8];
        let eq: [u8; 1] = [61u8];
        assert(semi@ =~= seq![59u8]);
        assert(eq@ =~= seq![61u8]);
        let parts = split_bytes(v.as_slice(), &semi);
        let ghost cs = views(parts@);
        let mut map = FieldMap::new();
        let mut i: usize = 0;
        let mut more = true;
        while more && i < parts.len()
            invariant
                cs == views(parts@),
                cs == split(v@, seq![59u8]),
                eq@ == seq![61u8],
                0 <= i <= parts@.len(),
                !more ==> i < cs.len() && !is_cookie(cs[i as int]),
                cookie_end(cs, 0) == cookie_end(cs, i as int),
                map.pairs() == cs.subrange(0, i as int).map_values(|c: Seq<u8>| cookie_pair(c)),
            decreases parts@.len() - i + (if more { 1int } else { 0int }),
        {
            let kv = split_bytes(parts[i].as_slice(), &eq);
            assert(cs[i as int] == parts@[i as int]@);
            assert(views(kv@).len() == kv@.len());
            if kv.len() == 2 {
                assert(views(kv@)[0] == kv@[0]@);
                assert(views(kv@)[1] == kv@[1]@);
                let k = without_spaces(kv[0].as_slice());
                let val = without_spaces(kv[1].as_slice());
                map.insert(k, val);
                proof {
                    assert(cs.subrange(0, i + 1).map_values(|c: Seq<u8>| cookie_pair(c))
                        =~= cs.subrange(0, i as int).map_values(|c: Seq<u8>| cookie_pair(c)).push(
                        cookie_pair(cs[i as int])));
                }
                i = i + 1;
            } else {
                more = false;
            }
        }
        Some(map)
    }
}

} // verus!
