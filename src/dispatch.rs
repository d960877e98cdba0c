//! Handler dispatch and the per-connection decision: from raw request bytes
//! to either a response or a handler call.
use vstd::prelude::*;
use vstd::slice::slice_to_vec;
use crate::fields::{FieldMap, map_of, lemma_map_of_concat};
use crate::parse::{
    lemma_parse_round_trip, render_request, render_line,
    NewRequestType, parse_request, parse_error, parsed_as, line_tokens, request_line, target_path,
    target_query,
};
use crate::response::{IntoResp, Status, message};
use crate::router::{Handler, RouterServable, Router, route_of, has_param, captures, segments};
use crate::text::free_of;

verus! {

/// The bytes of `Missing state`.
pub open spec fn missing_state() -> Seq<u8> {
    seq![77u8, 105, 115, 115, 105, 110, 103, 32, 115, 116, 97, 116, 101]
}

fn missing_state_bytes() -> (r: Vec<u8>)
    ensures
        r@ == missing_state(),
{
    let a: [u8; 13] = [77u8, 105, 115, 115, 105, 110, 103, 32, 115, 116, 97, 116, 101];
    let r = slice_to_vec(&a);
    assert(r@ =~= missing_state());
    r
}

/// The bytes of `Missing path extracts`.
pub open spec fn missing_extracts() -> Seq<u8> {
    seq![77u8, 105, 115, 115, 105, 110, 103, 32, 112, 97, 116, 104, 32, 101, 120, 116, 114, 97, 99, 116, 115]
}

fn missing_extracts_bytes() -> (r: Vec<u8>)
    ensures
        r@ == missing_extracts(),
{
    let a: [u8; 21] = [77u8, 105, 115, 115, 105, 110, 103, 32, 112, 97, 116, 104, 32, 101, 120, 116, 114, 97, 99, 116, 115];
    let r = slice_to_vec(&a);
    assert(r@ =~= missing_extracts());
    r
}

/// The body-less response with status `code`.
pub open spec fn bare(code: u16) -> Seq<u8> {
    message(code, seq![], seq![], seq![])
}

/// The response with status `code` and a short text body.
pub open spec fn with_text(code: u16, body: Seq<u8>) -> Seq<u8> {
    message(code, seq![], seq![], body)
}

/// A handler call that dispatch settled on.
pub enum Invoke<F> {
    Without(F),
    WithState(F),
    WithStateAndExtract(F, FieldMap),
}

/// `r` is what dispatching to `h` gives, with user state present or not and
/// with the path parameters `ex`, if any.
pub open spec fn dispatched<F>(
    h: Handler<F>,
    has_state: bool,
    ex: Option<Seq<(Seq<u8>, Seq<u8>)>>,
    r: Result<Invoke<F>, Vec<u8>>,
) -> bool {
    match h {
        Handler::Without(f) => r matches Ok(Invoke::Without(g)) && g == f,
        Handler::WithState(f) => if has_state {
            r matches Ok(Invoke::WithState(g)) && g == f
        } else {
            r matches Err(b) && b@ == with_text(500, missing_state())
        },
        Handler::WithStateAndExtract(f) => match ex {
            None => r matches Err(b) && b@ == with_text(400, missing_extracts()),
            Some(ps) => if has_state {
                r matches Ok(Invoke::WithStateAndExtract(g, m)) && g == f && m.pairs() == ps
            } else {
                r matches Err(b) && b@ == with_text(500, missing_state())
            },
        },
    }
}

fn text_reply(code: u16, body: Vec<u8>) -> (r: Vec<u8>)
    ensures
        r@ == with_text(code, body@),
{
    (Status(code), body).into_response()
}

impl<F: Copy> Handler<F> {
    /// Decides how to call this handler: with the state when its shape takes
    /// one, with the path parameters when its shape takes them; an error
    /// response when something its shape needs is missing.
    pub fn handle(&self, has_state: bool, extracts: Option<FieldMap>) -> (r: Result<Invoke<F>, Vec<u8>>)
        ensures
            dispatched(
                *self,
                has_state,
                match extracts {
                    Some(m) => Some(m.pairs()),
                    None => None,
                },
                r,
            ),
    {
        match *self {
            Handler::Without(f) => Ok(Invoke::Without(f)),
            Handler::WithState(f) => if has_state {
                Ok(Invoke::WithState(f))
            } else {
                Err(text_reply(500, missing_state_bytes()))
            },
            Handler::WithStateAndExtract(f) => match extracts {
                None => Err(text_reply(400, missing_extracts_bytes())),
                Some(m) => if has_state {
                    Ok(Invoke::WithStateAndExtract(f, m))
                } else {
                    Err(text_reply(500, missing_state_bytes()))
                },
            },
        }
    }
}

/// Merges the parameters a route captured with those of the query string;
/// on a name in both, the query's value wins.
pub fn merge_extracts(route: Option<FieldMap>, query: &Option<FieldMap>) -> (r: Option<FieldMap>)
    ensures
        match route {
            None => r is None,
            Some(m) => r matches Some(x) && x.pairs() == m.pairs() + match query {
                Some(q) => q.pairs(),
                None => Seq::<(Seq<u8>, Seq<u8>)>::empty(),
            },
        },
{
    match route {
        None => None,
        Some(mut m) => {
            match query {
                Some(q) => m.extend(q),
                None => {
                    assert(m.pairs() + Seq::<(Seq<u8>, Seq<u8>)>::empty() =~= m.pairs());
                },
            }
            Some(m)
        },
    }
}

/// The path parameters a request gets when `found` routed it: none for a
/// pattern without parametric segment, else the captures followed by the
/// query's pairs.
pub open spec fn merged<F>(
    found: (Handler<F>, Seq<Seq<u8>>),
    path: Seq<u8>,
    query: Option<Seq<(Seq<u8>, Seq<u8>)>>,
) -> Option<Seq<(Seq<u8>, Seq<u8>)>> {
    if has_param(found.1) {
        Some(captures(found.1, segments(path)) + match query {
            Some(q) => q,
            None => seq![],
        })
    } else {
        None
    }
}

/// Query values override captured path parameters of the same name.
pub proof fn lemma_query_overrides<F>(
    found: (Handler<F>, Seq<Seq<u8>>),
    path: Seq<u8>,
    query: Seq<(Seq<u8>, Seq<u8>)>,
)
    requires
        has_param(found.1),
    ensures
        merged(found, path, Some(query)) matches Some(m) && map_of(m) == map_of(
            captures(found.1, segments(path)),
        ).union_prefer_right(map_of(query)),
{
    lemma_map_of_concat(captures(found.1, segments(path)), query);
}

/// What to do with one connection's request.
pub enum Plan<F> {
    /// Send these bytes.
    Reply(Vec<u8>),
    /// Call the handler with the parsed request; send what it returns.
    Call(Invoke<F>, NewRequestType),
}

/// `r` follows from dispatching the request of `raw` to `h`.
pub open spec fn step_of<F>(
    h: Handler<F>,
    has_state: bool,
    ex: Option<Seq<(Seq<u8>, Seq<u8>)>>,
    raw: Seq<u8>,
    r: Plan<F>,
) -> bool {
    match r {
        Plan::Reply(b) => dispatched(h, has_state, ex, Err(b)),
        Plan::Call(inv, req) => dispatched(h, has_state, ex, Ok(inv)) && parsed_as(raw, req),
    }
}

/// The plan for the request bytes `raw`: 400 when they do not parse; the
/// matched handler, else the fallback, else 404.
pub open spec fn plan_of<S, F>(rt: Router<S, F>, raw: Seq<u8>, r: Plan<F>) -> bool {
    match parse_error(raw) {
        Some(_) => r matches Plan::Reply(b) && b@ == bare(400),
        None => {
            let t = line_tokens(request_line(raw));
            let path = target_path(t[1]);
            match route_of(rt.routes, path) {
                Some(found) => step_of(found.0, rt.state is Some, merged(found, path, target_query(t[1])), raw, r),
                None => match rt.fallback {
                    Some(h) => step_of(h, rt.state is Some, None, raw, r),
                    None => r matches Plan::Reply(b) && b@ == bare(404),
                },
            }
        },
    }
}

/// The bytes of `GET`.
pub open spec fn get_token() -> Seq<u8> {
    seq![71u8, 69, 84]
}

/// The bytes of `HTTP/1.1`.
pub open spec fn http11() -> Seq<u8> {
    seq![72u8, 84, 84, 80, 47, 49, 46, 49]
}

/// With no route and no fallback, a `GET` for any target free of spaces and
/// carriage returns is answered 404, and no handler is called.
pub proof fn lemma_unrouted_not_found<S, F>(rt: Router<S, F>, target: Seq<u8>, r: Plan<F>)
    requires
        rt.routes.children@.len() == 0,
        rt.routes.handler is None,
        rt.fallback is None,
        free_of(target, 32u8),
        free_of(target, 13u8),
        plan_of(rt, render_request(render_line(get_token(), target, http11()), seq![], seq![]), r),
    ensures
        r matches Plan::Reply(b) && b@ == bare(404),
{
    let names = Seq::<Seq<u8>>::empty();
    assert(free_of(http11(), 32u8) && free_of(http11(), 13u8));
    lemma_parse_round_trip(get_token(), target, http11(), names, names, seq![]);
    assert(Seq::new(names.len(), |k: int| crate::parse::render_header(names[k], names[k])) =~= Seq::<Seq<u8>>::empty());
}

fn finish<F: Copy>(d: Result<Invoke<F>, Vec<u8>>, req: NewRequestType) -> (r: Plan<F>)
    ensures
        match r {
            Plan::Reply(b) => d == Err::<Invoke<F>, Vec<u8>>(b),
            Plan::Call(inv, q) => d == Ok::<Invoke<F>, Vec<u8>>(inv) && q == req,
        },
{
    match d {
        Ok(inv) => Plan::Call(inv, req),
        Err(b) => Plan::Reply(b),
    }
}

impl<S, F: Copy> RouterServable<S, F> {
    /// Parses the request in `raw`, routes it, and decides on the response
    /// or the handler call.
    pub fn plan(&self, raw: &[u8]) -> (r: Plan<F>)
        ensures
            plan_of(self.router, raw@, r),
    {
        let req = match parse_request(raw) {
            Ok(req) => req,
            Err(_) => return Plan::Reply(Status(400).into_response()),
        };
        let has_state = self.router.state.is_some();
        let ghost t = line_tokens(request_line(raw@));
        match self.router.routes.get_handler(req.metadata.path.as_slice()) {
            Some(rr) => {
                let ex = merge_extracts(rr.extract, &req.params);
                let d = rr.handler.handle(has_state, ex);
                finish(d, req)
            },
            None => match self.router.fallback {
                Some(h) => {
                    let d = h.handle(has_state, None);
                    finish(d, req)
                },
                None => Plan::Reply(Status(404).into_response()),
            },
        }
    }
}

} // verus!
