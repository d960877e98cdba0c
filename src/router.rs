//! The route tree: registration of path patterns and lookup of paths.
use vstd::prelude::*;
use vstd::slice::slice_to_vec;
use crate::fields::FieldMap;
use crate::text::{free_of, lemma_split_free, split, split_from, views, split_bytes, append_bytes, copy_range, first_from, lemma_next_at};
use vstd::string::StringSliceAdditionalSpecFns;
use crate::types::bytes_eq;

verus! {

/// The characters a route pattern may not contain: `. & ( ) = { } $`.
pub open spec fn is_forbidden(b: u8) -> bool {
    b == 46 || b == 38 || b == 40 || b == 41 || b == 61 || b == 123 || b == 125 || b == 36
}

/// A segment that begins with `:` captures the path segment it meets.
pub open spec fn is_param(seg: Seq<u8>) -> bool {
    seg.len() > 0 && seg[0] == 58u8
}

pub open spec fn slash() -> Seq<u8> {
    seq![47u8]
}

pub open spec fn is_root(p: Seq<u8>) -> bool {
    p == slash()
}

/// The segments of a pattern or path after its leading `/`; none for `/`.
pub open spec fn segments(p: Seq<u8>) -> Seq<Seq<u8>> {
    if is_root(p) {
        seq![]
    } else {
        split(p, slash()).drop_first()
    }
}

/// The shapes a handler comes in; `F` is the function the caller registered.
#[derive(Clone, Copy, Debug, PartialEq, Eq)]
pub enum Handler<F> {
    /// Called with the request alone.
    Without(F),
    /// Called with the request and the user state.
    WithState(F),
    /// Called with the request, the user state and the path parameters.
    WithStateAndExtract(F),
}

/// A node of the route tree: one segment below its parent.
#[derive(Debug)]
pub struct Node<F> {
    /// The path from the root down to this node, e.g. `/user/:id`.
    pub subpath: Vec<u8>,
    /// The last segment of `subpath`; empty at the root.
    pub segment: Vec<u8>,
    /// Children in the order they were created.
    pub children: Vec<Node<F>>,
    pub handler: Option<Handler<F>>,
}

/// The subpath of a child with segment `seg` below a node with subpath `p`.
pub open spec fn extend(p: Seq<u8>, seg: Seq<u8>) -> Seq<u8> {
    if is_root(p) {
        slash() + seg
    } else {
        p + slash() + seg
    }
}

/// No two children of a node have the same segment.
pub open spec fn distinct_segments<F>(cs: Seq<Node<F>>) -> bool {
    forall|i: int, j: int|
        0 <= i < cs.len() && 0 <= j < cs.len() && i != j ==> (#[trigger] cs[i]).segment@
            != (#[trigger] cs[j]).segment@
}

/// A segment: not empty, and free of `/`.
pub open spec fn is_segment(s: Seq<u8>) -> bool {
    s.len() > 0 && free_of(s, 47u8)
}

/// Every node below `n` has one segment, and as subpath its parent's
/// extended by that segment; siblings have distinct segments.
pub open spec fn wf<F>(n: Node<F>) -> bool
    decreases n,
{
    &&& distinct_segments(n.children@)
    &&& forall|i: int|
        0 <= i < n.children@.len() ==> is_segment((#[trigger] n.children@[i]).segment@)
            && n.children@[i].subpath@ == extend(n.subpath@, n.children@[i].segment@) && wf(
            n.children@[i],
        )
}

/// `c` is a chain of new nodes for the segments `p` below a node with
/// subpath `prefix`: one node per segment, each the only child of the one
/// before, with `h` on the last and no handler elsewhere.
pub open spec fn is_chain<F>(c: Node<F>, p: Seq<Seq<u8>>, prefix: Seq<u8>, h: Handler<F>) -> bool
    decreases p.len(),
{
    &&& p.len() > 0
    &&& c.segment@ == p[0]
    &&& c.subpath@ == extend(prefix, p[0])
    &&& if p.len() == 1 {
        c.children@.len() == 0 && c.handler == Some(h)
    } else {
        &&& c.children@.len() == 1
        &&& c.handler is None
        &&& is_chain(c.children@[0], p.drop_first(), c.subpath@, h)
    }
}

/// `new` is `old` after registering `h` for the segments `p`: the path of
/// existing nodes is followed as far as it goes, every child keeping its
/// place; the rest of `p` becomes a chain appended after the children of
/// the last node reached; and `h` stands on the node for `p`.
pub open spec fn inserted<F>(old: Node<F>, p: Seq<Seq<u8>>, h: Handler<F>, new: Node<F>) -> bool
    decreases p.len(),
{
    &&& new.subpath@ == old.subpath@
    &&& new.segment@ == old.segment@
    &&& if p.len() == 0 {
        new.handler == Some(h) && new.children@ == old.children@
    } else {
        &&& new.handler == old.handler
        &&& match first_child(old.children@, p[0]) {
            Some(i) => {
                &&& new.children@.len() == old.children@.len()
                &&& forall|j: int|
                    0 <= j < old.children@.len() && j != i ==> #[trigger] new.children@[j]
                        == old.children@[j]
                &&& inserted(old.children@[i], p.drop_first(), h, new.children@[i])
            },
            None => {
                &&& new.children@.len() == old.children@.len() + 1
                &&& new.children@.drop_last() == old.children@
                &&& is_chain(new.children@.last(), p, old.subpath@, h)
            },
        }
    }
}

/// `i` is the first child whose segment is `seg`.
pub open spec fn is_first_child<F>(cs: Seq<Node<F>>, seg: Seq<u8>, i: int) -> bool {
    0 <= i < cs.len() && cs[i].segment@ == seg && forall|j: int|
        0 <= j < i ==> cs[j].segment@ != seg
}

/// The first child whose segment is `seg`.
pub open spec fn first_child<F>(cs: Seq<Node<F>>, seg: Seq<u8>) -> Option<int> {
    if exists|i: int| is_first_child(cs, seg, i) {
        Some(choose|i: int| is_first_child(cs, seg, i))
    } else {
        None
    }
}

/// The handler registered for the pattern whose segments are `p`: the tree
/// read as a mapping from patterns to handlers.
pub open spec fn handler_at<F>(n: Node<F>, p: Seq<Seq<u8>>) -> Option<Handler<F>>
    decreases p.len(),
{
    if p.len() == 0 {
        n.handler
    } else {
        match first_child(n.children@, p[0]) {
            Some(i) => handler_at(n.children@[i], p.drop_first()),
            None => None,
        }
    }
}

/// `new` is `old` with `h` registered for the segments `p`, every other
/// pattern keeping its handler.
pub open spec fn registered<F>(old: Node<F>, p: Seq<Seq<u8>>, h: Handler<F>, new: Node<F>) -> bool {
    forall|q: Seq<Seq<u8>>|
        #[trigger] handler_at(new, q) == if q == p {
            Some(h)
        } else {
            handler_at(old, q)
        }
}

/// Registering a pattern twice leaves the second handler there, and every
/// other pattern as it was before both.
pub proof fn lemma_last_registration_wins<F>(
    t0: Node<F>,
    t1: Node<F>,
    t2: Node<F>,
    p: Seq<Seq<u8>>,
    h1: Handler<F>,
    h2: Handler<F>,
)
    requires
        registered(t0, p, h1, t1),
        registered(t1, p, h2, t2),
    ensures
        handler_at(t2, p) == Some(h2),
        forall|q: Seq<Seq<u8>>| q != p ==> #[trigger] handler_at(t2, q) == handler_at(t0, q),
{
    assert(handler_at(t2, p) == Some(h2));
    assert forall|q: Seq<Seq<u8>>| q != p implies #[trigger] handler_at(t2, q) == handler_at(t0, q) by {
        assert(handler_at(t1, q) == handler_at(t0, q));
    }
}

/// No segment of `p` from `d` on is parametric.
pub open spec fn literal_from(p: Seq<Seq<u8>>, d: int) -> bool {
    forall|k: int| d <= k < p.len() ==> !is_param(#[trigger] p[k])
}

/// Literal children before `i` that are not candidates are skipped.
proof fn lemma_scan_skip<F>(cs: Seq<Node<F>>, segs: Seq<Seq<u8>>, d: int, j: int, i: int)
    requires
        0 <= j <= i < cs.len(),
        0 <= d < segs.len(),
        forall|k: int| j <= k < i ==> (#[trigger] cs[k]).segment@ != segs[d],
    ensures
        scan(cs, segs, d, j, false) == scan(cs, segs, d, i, false),
    decreases i - j,
{
    if j < i {
        assert(!candidate(cs[j], segs, d, false));
        lemma_scan_skip(cs, segs, d, j + 1, i);
    }
}

/// A child standing for `segs[d]` that leads by literal segments to a
/// handler is where `visit` ends.
proof fn lemma_visit_literal<F>(c: Node<F>, segs: Seq<Seq<u8>>, d: int, h: Handler<F>)
    requires
        wf(c),
        0 <= d < segs.len(),
        literal_from(segs, d),
        c.segment@ == segs[d],
        handler_at(c, segs.subrange(d + 1, segs.len() as int)) == Some(h),
    ensures
        visit(c, segs, d) == Some((h, segs.subrange(d, segs.len() as int))),
    decreases segs.len() - d, 0int,
{
    let rest = segs.subrange(d + 1, segs.len() as int);
    if d + 1 == segs.len() {
        assert(rest.len() == 0);
        assert(seq![c.segment@] =~= segs.subrange(d, segs.len() as int));
    } else {
        assert(rest[0] == segs[d + 1]);
        let i = first_child(c.children@, segs[d + 1])->0;
        assert(is_first_child(c.children@, segs[d + 1], i));
        assert(rest.drop_first() =~= segs.subrange(d + 2, segs.len() as int));
        lemma_scan_literal(c.children@, segs, d + 1, i, h);
        assert(seq![c.segment@] + segs.subrange(d + 1, segs.len() as int) =~= segs.subrange(
            d,
            segs.len() as int,
        ));
    }
}

/// Among well-formed children, the literal pass finds the child standing
/// for `segs[d]` and what lies below it.
proof fn lemma_scan_literal<F>(cs: Seq<Node<F>>, segs: Seq<Seq<u8>>, d: int, i: int, h: Handler<F>)
    requires
        distinct_segments(cs),
        forall|k: int| 0 <= k < cs.len() ==> wf(#[trigger] cs[k]),
        0 <= d < segs.len(),
        literal_from(segs, d),
        is_first_child(cs, segs[d], i),
        handler_at(cs[i], segs.subrange(d + 1, segs.len() as int)) == Some(h),
    ensures
        scan(cs, segs, d, 0, false) == Some((h, segs.subrange(d, segs.len() as int))),
    decreases segs.len() - d, 1int,
{
    assert forall|k: int| 0 <= k < i implies (#[trigger] cs[k]).segment@ != segs[d] by {}
    lemma_scan_skip(cs, segs, d, 0, i);
    lemma_visit_literal(cs[i], segs, d, h);
    assert(candidate(cs[i], segs, d, false));
}

/// Routing the path of a pattern without parametric segments finds the
/// handler registered for that pattern, with no parameters.
pub proof fn lemma_literal_route<F>(t: Node<F>, path: Seq<u8>)
    requires
        wf(t),
        !is_root(path),
        path.len() > 0 && path[0] == 47u8,
        literal_from(segments(path), 0),
        handler_at(t, segments(path)) is Some,
    ensures
        route_of(t, path) == Some((handler_at(t, segments(path))->0, segments(path))),
        !has_param(segments(path)),
{
    let segs = segments(path);
    let h = handler_at(t, segs)->0;
    lemma_segments_nonempty(path);
    let i = first_child(t.children@, segs[0])->0;
    assert(is_first_child(t.children@, segs[0], i));
    assert(segs.drop_first() =~= segs.subrange(1, segs.len() as int));
    lemma_scan_literal(t.children@, segs, 0, i, h);
    assert(segs.subrange(0, segs.len() as int) =~= segs);
}

/// A path that begins with `/` and is not `/` has at least one segment.
proof fn lemma_segments_nonempty(path: Seq<u8>)
    requires
        !is_root(path),
        path.len() > 0 && path[0] == 47u8,
    ensures
        segments(path).len() >= 1,
{
    assert(path.subrange(0, 1) =~= slash());
    assert(first_from(path, slash(), 0, 0));
    lemma_next_at(path, slash(), 0, 0);
    let rest = split_from(path, slash(), 1);
    assert(rest.len() >= 1);
}

/// `a` and `b` have the same nodes, with the same subpaths and segments in
/// the same places; only handlers may differ.
pub open spec fn same_shape<F>(a: Node<F>, b: Node<F>) -> bool
    decreases a,
{
    &&& a.subpath@ == b.subpath@
    &&& a.segment@ == b.segment@
    &&& a.children@.len() == b.children@.len()
    &&& forall|i: int|
        0 <= i < a.children@.len() ==> same_shape(#[trigger] a.children@[i], b.children@[i])
}

proof fn lemma_same_shape_refl<F>(n: Node<F>)
    ensures
        same_shape(n, n),
    decreases n,
{
    assert forall|i: int| 0 <= i < n.children@.len() implies same_shape(
        #[trigger] n.children@[i],
        n.children@[i],
    ) by {
        lemma_same_shape_refl(n.children@[i]);
    }
}

/// Registering a pattern that already has a handler adds no node: the tree
/// keeps its shape and the pattern gets the new handler.
pub proof fn lemma_reregister_keeps_shape<F>(t1: Node<F>, p: Seq<Seq<u8>>, h: Handler<F>, t2: Node<F>)
    requires
        handler_at(t1, p) is Some,
        inserted(t1, p, h, t2),
    ensures
        same_shape(t1, t2),
    decreases p.len(),
{
    if p.len() == 0 {
        assert forall|i: int| 0 <= i < t1.children@.len() implies same_shape(
            #[trigger] t1.children@[i],
            t2.children@[i],
        ) by {
            lemma_same_shape_refl(t1.children@[i]);
        }
    } else {
        let i = first_child(t1.children@, p[0])->0;
        lemma_reregister_keeps_shape(t1.children@[i], p.drop_first(), h, t2.children@[i]);
        assert forall|j: int| 0 <= j < t1.children@.len() implies same_shape(
            #[trigger] t1.children@[j],
            t2.children@[j],
        ) by {
            if j != i {
                assert(t2.children@[j] == t1.children@[j]);
                lemma_same_shape_refl(t1.children@[j]);
            }
        }
    }
}

proof fn lemma_head_tail_eq(a: Seq<Seq<u8>>, b: Seq<Seq<u8>>)
    requires
        a.len() > 0,
        b.len() > 0,
        a[0] == b[0],
        a.drop_first() == b.drop_first(),
    ensures
        a == b,
{
    assert(a.len() == b.len()) by {
        assert(a.drop_first().len() == a.len() - 1);
        assert(b.drop_first().len() == b.len() - 1);
        assert(a.drop_first().len() == b.drop_first().len());
    }
    assert forall|k: int| 0 <= k < a.len() implies a[k] == b[k] by {
        if k > 0 {
            assert(a[k] == a.drop_first()[k - 1]);
            assert(b[k] == b.drop_first()[k - 1]);
        }
    }
    assert(a =~= b);
}

proof fn lemma_first_child_unique<F>(cs: Seq<Node<F>>, seg: Seq<u8>, i: int)
    requires
        is_first_child(cs, seg, i),
    ensures
        first_child(cs, seg) == Some(i),
{
    let c = choose|c: int| is_first_child(cs, seg, c);
    assert(is_first_child(cs, seg, c));
    if c < i {
        assert(cs[c].segment@ != seg);
    } else if c > i {
        assert(cs[i].segment@ != seg);
    }
}

/// Children with the same segments are searched alike.
proof fn lemma_first_child_same<F>(a: Seq<Node<F>>, b: Seq<Node<F>>, seg: Seq<u8>)
    requires
        a.len() == b.len(),
        forall|j: int| 0 <= j < a.len() ==> a[j].segment@ == b[j].segment@,
    ensures
        first_child(a, seg) == first_child(b, seg),
{
    if exists|i: int| is_first_child(a, seg, i) {
        let i = choose|i: int| is_first_child(a, seg, i);
        assert(is_first_child(b, seg, i));
        lemma_first_child_unique(a, seg, i);
        lemma_first_child_unique(b, seg, i);
    } else if exists|i: int| is_first_child(b, seg, i) {
        let i = choose|i: int| is_first_child(b, seg, i);
        assert(is_first_child(a, seg, i));
    }
}

/// The pattern in which `n` matches `segs[d..]`, with its handler: `n`'s
/// segment stands for `segs[d]`, and below it the children are tried.
pub open spec fn visit<F>(n: Node<F>, segs: Seq<Seq<u8>>, d: int) -> Option<(Handler<F>, Seq<Seq<u8>>)>
    decreases segs.len() - d, 0int, 0int,
{
    if d < 0 || d >= segs.len() {
        None
    } else if d + 1 == segs.len() {
        match n.handler {
            Some(h) => Some((h, seq![n.segment@])),
            None => None,
        }
    } else {
        match scan(n.children@, segs, d + 1, 0, false) {
            Some(hp) => Some((hp.0, seq![n.segment@] + hp.1)),
            None => match scan(n.children@, segs, d + 1, 0, true) {
                Some(hp) => Some((hp.0, seq![n.segment@] + hp.1)),
                None => None,
            },
        }
    }
}

/// `c` may stand for `segs[d]` in this pass: a literal child equal to it,
/// or, in the parametric pass (`params`), any parametric child.
pub open spec fn candidate<F>(c: Node<F>, segs: Seq<Seq<u8>>, d: int, params: bool) -> bool {
    if params {
        is_param(c.segment@)
    } else {
        !is_param(c.segment@) && c.segment@ == segs[d]
    }
}

/// The first match among the children from `i` on, in their order.
pub open spec fn scan<F>(cs: Seq<Node<F>>, segs: Seq<Seq<u8>>, d: int, i: int, params: bool) -> Option<(Handler<F>, Seq<Seq<u8>>)>
    decreases segs.len() - d, 1int, cs.len() - i,
{
    if i < 0 || i >= cs.len() || d < 0 || d >= segs.len() {
        None
    } else if candidate(cs[i], segs, d, params) && visit(cs[i], segs, d) is Some {
        visit(cs[i], segs, d)
    } else {
        scan(cs, segs, d, i + 1, params)
    }
}

/// The first match below `n` for the segments `segs`: literal children are
/// tried before parametric ones, each kind in the order they were created.
pub open spec fn lookup<F>(n: Node<F>, segs: Seq<Seq<u8>>) -> Option<(Handler<F>, Seq<Seq<u8>>)> {
    match scan(n.children@, segs, 0, 0, false) {
        Some(hp) => Some(hp),
        None => scan(n.children@, segs, 0, 0, true),
    }
}

/// The parameters a pattern captures from a path: the name after `:` of
/// each parametric segment, with the path segment in its place.
pub open spec fn captures(pat: Seq<Seq<u8>>, segs: Seq<Seq<u8>>) -> Seq<(Seq<u8>, Seq<u8>)>
    decreases pat.len(),
{
    if pat.len() == 0 {
        seq![]
    } else {
        let rest = captures(pat.drop_last(), segs);
        if is_param(pat.last()) {
            rest.push((pat.last().drop_first(), segs[pat.len() - 1]))
        } else {
            rest
        }
    }
}

pub open spec fn has_param(pat: Seq<Seq<u8>>) -> bool {
    exists|i: int| 0 <= i < pat.len() && is_param(#[trigger] pat[i])
}

/// What routing `path` through the tree rooted at `n` finds: the handler and
/// the pattern it was registered with.
pub open spec fn route_of<F>(n: Node<F>, path: Seq<u8>) -> Option<(Handler<F>, Seq<Seq<u8>>)> {
    if is_root(path) {
        match n.handler {
            Some(h) => Some((h, seq![])),
            None => None,
        }
    } else if path.len() == 0 || path[0] != 47u8 {
        None
    } else {
        lookup(n, segments(path))
    }
}

/// `rr` reports the route `found` for `path`.
pub open spec fn reports<F>(rr: RoutingResult<F>, found: (Handler<F>, Seq<Seq<u8>>), path: Seq<u8>) -> bool {
    &&& rr.handler == found.0
    &&& if has_param(found.1) {
        rr.extract matches Some(m) && m.pairs() == captures(found.1, segments(path))
    } else {
        rr.extract is None
    }
}

pub open spec fn has_leading_slash(p: Seq<u8>) -> bool {
    p.len() > 0 && p[0] == 47u8
}

pub open spec fn has_forbidden(p: Seq<u8>) -> bool {
    exists|i: int| 0 <= i < p.len() && is_forbidden(#[trigger] p[i])
}

/// A pattern is `/`, or non-empty segments each after a `/`, with no
/// forbidden character.
pub open spec fn valid_pattern(p: Seq<u8>) -> bool {
    &&& has_leading_slash(p)
    &&& !has_forbidden(p)
    &&& (is_root(p) || forall|k: int| 0 <= k < segments(p).len() ==> (#[trigger] segments(p)[k]).len() > 0)
}

/// Why a pattern could not be registered.
#[derive(Clone, Copy, Debug, PartialEq, Eq, Structural)]
pub enum RouteError {
    /// The pattern holds one of `. & ( ) = { } $`.
    Unsupported,
    /// The pattern does not begin with `/`.
    NoLeadingSlash,
    /// The pattern has an empty segment (`//`, or a `/` at its end).
    EmptySegment,
}

/// The outcome of routing: the handler, and the parameters captured when
/// the pattern has parametric segments.
pub struct RoutingResult<F> {
    pub handler: Handler<F>,
    pub extract: Option<FieldMap>,
}

impl<F: Copy> Node<F> {
    /// A node without children or handler.
    pub fn new(path: &[u8]) -> (r: Node<F>)
        ensures
            r.subpath@ == path@,
            r.segment@ == Seq::<u8>::empty(),
            r.children@.len() == 0,
            r.handler is None,
            forall|q: Seq<Seq<u8>>| #[trigger] handler_at(r, q) is None,
            wf(r),
    {
        let r = Node { subpath: slice_to_vec(path), segment: Vec::new(), children: Vec::new(), handler: None };
        assert forall|q: Seq<Seq<u8>>| #[trigger] handler_at(r, q) is None by {
            if q.len() > 0 {
                assert(!exists|i: int| is_first_child(r.children@, q[0], i));
            }
        }
        r
    }

    /// The chain of nodes for `segs[depth..]`, below a node whose subpath is
    /// `prefix`, with `h` at its end.
    fn chain(segs: &Vec<Vec<u8>>, depth: usize, prefix: &[u8], h: Handler<F>) -> (r: Node<F>)
        requires
            depth < segs@.len(),
            forall|k: int| depth <= k < segs@.len() ==> is_segment(#[trigger] segs@[k]@),
        ensures
            is_chain(r, views(segs@).subrange(depth as int, segs@.len() as int), prefix@, h),
            r.segment@ == segs@[depth as int]@,
            r.subpath@ == extend(prefix@, segs@[depth as int]@),
            wf(r),
            forall|q: Seq<Seq<u8>>| #[trigger] handler_at(r, q) == if q == views(segs@).subrange(
                depth + 1,
                segs@.len() as int,
            ) {
                Some(h)
            } else {
                None::<Handler<F>>
            },
        decreases segs@.len() - depth,
    {
        let mut subpath = slice_to_vec(prefix);
        let at_root = prefix.len() == 1 && prefix[0] == 47u8;
        proof {
            if at_root {
                assert(prefix@ =~= slash());
            } else {
                assert(!is_root(prefix@)) by {
                    if is_root(prefix@) {
                        assert(prefix@.len() == 1 && prefix@[0] == 47u8);
                    }
                }
            }
        }
        if !at_root {
            subpath.push(47u8);
        }
        append_bytes(&mut subpath, segs[depth].as_slice());
        assert(subpath@ =~= extend(prefix@, segs@[depth as int]@));
        let segment = slice_to_vec(segs[depth].as_slice());
        let ghost rest = views(segs@).subrange(depth + 1, segs@.len() as int);
        if depth == segs.len() - 1 {
            let r = Node { subpath, segment, children: Vec::new(), handler: Some(h) };
            assert(wf(r));
            assert(views(segs@).subrange(depth as int, segs@.len() as int).len() == 1);
            assert forall|q: Seq<Seq<u8>>| #[trigger] handler_at(r, q) == if q == rest {
                Some(h)
            } else {
                None::<Handler<F>>
            } by {
                assert(rest.len() == 0);
                if q.len() > 0 {
                    assert(!exists|i: int| is_first_child(r.children@, q[0], i));
                } else {
                    assert(q =~= rest);
                }
            }
            r
        } else {
            let c = Node::chain(segs, depth + 1, subpath.as_slice(), h);
            let mut children: Vec<Node<F>> = Vec::new();
            children.push(c);
            let r = Node { subpath, segment, children, handler: None };
            assert(r.children@[0] == c);
            assert(wf(r));
            assert(views(segs@).subrange(depth as int, segs@.len() as int).drop_first() =~= views(
                segs@,
            ).subrange(depth + 1, segs@.len() as int));
            assert forall|q: Seq<Seq<u8>>| #[trigger] handler_at(r, q) == if q == rest {
                Some(h)
            } else {
                None::<Handler<F>>
            } by {
                assert(rest.len() > 0);
                assert(rest[0] == segs@[depth + 1]@);
                assert(r.children@[0] == c);
                if q.len() > 0 {
                    if q[0] == rest[0] {
                        assert(is_first_child(r.children@, q[0], 0));
                        lemma_first_child_unique(r.children@, q[0], 0);
                        assert(handler_at(c, q.drop_first()) == handler_at(r, q));
                        assert(rest.drop_first() =~= views(segs@).subrange(depth + 2, segs@.len() as int));
                        if q.drop_first() == rest.drop_first() {
                            lemma_head_tail_eq(q, rest);
                        }
                    } else {
                        assert(!exists|i: int| is_first_child(r.children@, q[0], i));
                    }
                } else {
                    assert(q != rest);
                }
            }
            r
        }
    }

    /// Registers `h` for `segs[depth..]` below this node; a pattern that is
    /// already there gets its handler replaced.
    pub fn insert(&mut self, segs: &Vec<Vec<u8>>, depth: usize, h: Handler<F>)
        requires
            depth <= segs@.len(),
            wf(*old(self)),
            forall|k: int| depth <= k < segs@.len() ==> is_segment(#[trigger] segs@[k]@),
        ensures
            inserted(*old(self), views(segs@).subrange(depth as int, segs@.len() as int), h, *final(self)),
            final(self).segment@ == old(self).segment@,
            final(self).subpath@ == old(self).subpath@,
            wf(*final(self)),
            registered(*old(self), views(segs@).subrange(depth as int, segs@.len() as int), h, *final(self)),
        decreases segs@.len() - depth,
    {
        let ghost p = views(segs@).subrange(depth as int, segs@.len() as int);
        let ghost old_self = *self;
        if depth == segs.len() {
            self.handler = Some(h);
            assert(self.children@ == old_self.children@);
            assert forall|q: Seq<Seq<u8>>| #[trigger] handler_at(*self, q) == if q == p {
                Some(h)
            } else {
                handler_at(old_self, q)
            } by {
                assert(p.len() == 0);
                if q.len() == 0 {
                    assert(q =~= p);
                }
            }
            assert(p.len() == 0);
            assert(inserted(old_self, p, h, *self));
            return;
        }
        let mut i: usize = 0;
        let mut found = false;
        while !found && i < self.children.len()
            invariant
                *self == old_self,
                depth < segs@.len(),
                0 <= i <= self.children@.len(),
                found ==> i < self.children@.len() && self.children@[i as int].segment@ == segs@[depth as int]@,
                forall|j: int| 0 <= j < i ==> self.children@[j].segment@ != segs@[depth as int]@,
            decreases self.children@.len() - i + (if found { 0int } else { 1int }),
        {
            if bytes_eq(self.children[i].segment.as_slice(), segs[depth].as_slice()) {
                found = true;
            } else {
                i = i + 1;
            }
        }
        let ghost seg = segs@[depth as int]@;
        proof {
            assert(p[0] == seg);
        }
        if found {
            proof {
                assert(is_first_child(old_self.children@, seg, i as int));
                lemma_first_child_unique(old_self.children@, seg, i as int);
            }
            let mut c = self.children.remove(i);
            assert(c == old_self.children@[i as int]);
            c.insert(segs, depth + 1, h);
            let ghost gc = c;
            self.children.insert(i, c);
            proof {
                let cs = self.children@;
                let ocs = old_self.children@;
                let pr = views(segs@).subrange(depth + 1, segs@.len() as int);
                assert(p.drop_first() =~= pr);
                assert(cs[i as int] == gc);
                assert(inserted(ocs[i as int], pr, h, cs[i as int]));
                assert(forall|j: int| 0 <= j < ocs.len() && j != i ==> #[trigger] cs[j] == ocs[j]);
                assert(self.handler == old_self.handler);
                assert(inserted(old_self, p, h, *self));
                assert(cs.len() == ocs.len());
                assert forall|j: int| 0 <= j < cs.len() implies (#[trigger] cs[j]).subpath@ == extend(
                    self.subpath@,
                    cs[j].segment@,
                ) && wf(cs[j]) && cs[j].segment@ == ocs[j].segment@ by {
                    if j != i {
                        assert(cs[j] == ocs[j]);
                    }
                }
                assert(distinct_segments(cs)) by {
                    assert forall|a: int, b: int|
                        0 <= a < cs.len() && 0 <= b < cs.len() && a != b implies (#[trigger] cs[a]).segment@
                            != (#[trigger] cs[b]).segment@ by {
                        assert(cs[a].segment@ == ocs[a].segment@);
                        assert(cs[b].segment@ == ocs[b].segment@);
                        assert(ocs[a].segment@ != ocs[b].segment@);
                    }
                }
                assert(wf(*self));
                assert forall|j: int| 0 <= j < cs.len() implies cs[j].segment@ == ocs[j].segment@ by {
                    if j != i {
                        assert(cs[j] == ocs[j]);
                    }
                }
                assert forall|q: Seq<Seq<u8>>| #[trigger] handler_at(*self, q) == if q == p {
                    Some(h)
                } else {
                    handler_at(old_self, q)
                } by {
                    if q.len() > 0 {
                        lemma_first_child_same(cs, ocs, q[0]);
                        let pr = views(segs@).subrange(depth + 1, segs@.len() as int);
                        assert(p.drop_first() =~= pr);
                        if q[0] == seg {
                            assert(handler_at(cs[i as int], q.drop_first()) == if q.drop_first() == pr {
                                Some(h)
                            } else {
                                handler_at(ocs[i as int], q.drop_first())
                            });
                            if q.drop_first() == pr {
                                lemma_head_tail_eq(q, p);
                            }
                        } else {
                            assert(q != p);
                            match first_child(cs, q[0]) {
                                Some(k) => {
                                    assert(cs[k].segment@ == q[0]);
                                    assert(k != i);
                                    assert(cs[k] == ocs[k]);
                                },
                                None => {},
                            }
                        }
                    } else {
                        assert(q != p);
                    }
                }
            }
        } else {
            let c = Node::chain(segs, depth, self.subpath.as_slice(), h);
            let ghost gc = c;
            self.children.push(c);
            proof {
                let cs = self.children@;
                let ocs = old_self.children@;
                let last = ocs.len() as int;
                assert(cs == ocs.push(gc));
                assert(cs[last] == gc);
                assert(is_segment(gc.segment@));
                assert(cs.drop_last() =~= ocs);
                assert(p =~= views(segs@).subrange(depth as int, segs@.len() as int));
                assert(!exists|k: int| is_first_child(ocs, seg, k));
                assert(first_child(ocs, p[0]) is None);
                assert(self.handler == old_self.handler);
                assert(inserted(old_self, p, h, *self));
                assert forall|j: int| 0 <= j < cs.len() implies (#[trigger] cs[j]).subpath@ == extend(
                    self.subpath@,
                    cs[j].segment@,
                ) && wf(cs[j]) by {
                    if j != last {
                        assert(cs[j] == ocs[j]);
                    }
                }
                assert(distinct_segments(cs)) by {
                    assert forall|a: int, b: int|
                        0 <= a < cs.len() && 0 <= b < cs.len() && a != b implies (#[trigger] cs[a]).segment@
                            != (#[trigger] cs[b]).segment@ by {
                        if a == last {
                            assert(cs[b] == ocs[b]);
                            assert(ocs[b].segment@ != seg);
                        } else if b == last {
                            assert(cs[a] == ocs[a]);
                            assert(ocs[a].segment@ != seg);
                        } else {
                            assert(cs[a] == ocs[a]);
                            assert(cs[b] == ocs[b]);
                        }
                    }
                }
                assert(wf(*self));
                assert(is_first_child(cs, seg, last));
                lemma_first_child_unique(cs, seg, last);
                assert forall|q: Seq<Seq<u8>>| #[trigger] handler_at(*self, q) == if q == p {
                    Some(h)
                } else {
                    handler_at(old_self, q)
                } by {
                    if q.len() > 0 {
                        let pr = views(segs@).subrange(depth + 1, segs@.len() as int);
                        assert(p.drop_first() =~= pr);
                        if q[0] == seg {
                            assert(!exists|k: int| is_first_child(ocs, seg, k));
                            assert(handler_at(*self, q) == handler_at(gc, q.drop_first()));
                            assert(handler_at(old_self, q) is None);
                            if q.drop_first() == pr {
                                lemma_head_tail_eq(q, p);
                            }
                        } else {
                            assert(q != p);
                            if exists|k: int| is_first_child(ocs, q[0], k) {
                                let k = choose|k: int| is_first_child(ocs, q[0], k);
                                assert(is_first_child(cs, q[0], k));
                                lemma_first_child_unique(cs, q[0], k);
                                lemma_first_child_unique(ocs, q[0], k);
                            } else {
                                assert(!exists|k: int| is_first_child(cs, q[0], k)) by {
                                    if exists|k: int| is_first_child(cs, q[0], k) {
                                        let k = choose|k: int| is_first_child(cs, q[0], k);
                                        assert(k != last);
                                        assert(forall|j: int| 0 <= j < last ==> cs[j] == ocs[j]);
                                        assert(is_first_child(ocs, q[0], k));
                                    }
                                }
                            }
                        }
                    } else {
                        assert(q != p);
                    }
                }
            }
        }
    }
}

/// Tries `n` against `segs[d..]`.
fn visit_node<F: Copy>(n: &Node<F>, segs: &Vec<Vec<u8>>, d: usize) -> (r: Option<(Handler<F>, Vec<Vec<u8>>)>)
    requires
        d < segs@.len(),
    ensures
        match visit(*n, views(segs@), d as int) {
            Some(hp) => r matches Some(x) && x.0 == hp.0 && views(x.1@) == hp.1,
            None => r is None,
        },
        r matches Some(x) ==> x.1@.len() == segs@.len() - d,
    decreases segs@.len() - d, 0int, 0int,
{
    if d == segs.len() - 1 {
        match n.handler {
            Some(h) => {
                let mut pat: Vec<Vec<u8>> = Vec::new();
                pat.push(slice_to_vec(n.segment.as_slice()));
                assert(views(pat@) =~= seq![n.segment@]);
                Some((h, pat))
            },
            None => None,
        }
    } else {
        let found = match scan_children(&n.children, segs, d + 1, false) {
            Some(x) => Some(x),
            None => scan_children(&n.children, segs, d + 1, true),
        };
        match found {
            Some(x) => {
                let mut pat: Vec<Vec<u8>> = Vec::new();
                pat.push(slice_to_vec(n.segment.as_slice()));
                let mut rest = x.1;
                let ghost rv = views(rest@);
                pat.append(&mut rest);
                assert(views(pat@) =~= seq![n.segment@] + rv);
                Some((x.0, pat))
            },
            None => None,
        }
    }
}

/// The first match among the children `cs` for `segs[d]`, over the literal
/// children or, with `params`, the parametric ones.
fn scan_children<F: Copy>(cs: &Vec<Node<F>>, segs: &Vec<Vec<u8>>, d: usize, params: bool) -> (r: Option<(Handler<F>, Vec<Vec<u8>>)>)
    requires
        d < segs@.len(),
    ensures
        match scan(cs@, views(segs@), d as int, 0, params) {
            Some(hp) => r matches Some(x) && x.0 == hp.0 && views(x.1@) == hp.1,
            None => r is None,
        },
        r matches Some(x) ==> x.1@.len() == segs@.len() - d,
    decreases segs@.len() - d, 1int, 0int,
{
    let ghost ss = views(segs@);
    let mut i: usize = 0;
    while i < cs.len()
        invariant
            d < segs@.len(),
            ss == views(segs@),
            0 <= i <= cs@.len(),
            scan(cs@, ss, d as int, 0, params) == scan(cs@, ss, d as int, i as int, params),
        decreases cs@.len() - i,
    {
        let c = &cs[i];
        assert(ss[d as int] == segs@[d as int]@);
        let seg = c.segment.as_slice();
        let is_p = seg.len() > 0 && seg[0] == 58u8;
        let eligible = if params {
            is_p
        } else {
            !is_p && bytes_eq(seg, segs[d].as_slice())
        };
        if eligible {
            let v = visit_node(c, segs, d);
            if v.is_some() {
                return v;
            }
        }
        i = i + 1;
    }
    None
}

/// The parameters `pat` captures from `segs`, and whether it has any
/// parametric segment.
fn capture_params(pat: &Vec<Vec<u8>>, segs: &Vec<Vec<u8>>) -> (r: (FieldMap, bool))
    requires
        pat@.len() <= segs@.len(),
    ensures
        r.0.pairs() == captures(views(pat@), views(segs@)),
        r.1 == has_param(views(pat@)),
{
    let ghost pv = views(pat@);
    let ghost sv = views(segs@);
    let mut map = FieldMap::new();
    let mut any = false;
    let mut i: usize = 0;
    while i < pat.len()
        invariant
            pv == views(pat@),
            sv == views(segs@),
            pat@.len() <= segs@.len(),
            0 <= i <= pat@.len(),
            map.pairs() == captures(pv.subrange(0, i as int), sv),
            any == has_param(pv.subrange(0, i as int)),
        decreases pat@.len() - i,
    {
        let seg = pat[i].as_slice();
        let ghost pre = pv.subrange(0, i + 1);
        proof {
            assert(pre.drop_last() =~= pv.subrange(0, i as int));
            assert(pre.last() == seg@);
            assert(sv[i as int] == segs@[i as int]@);
        }
        if seg.len() > 0 && seg[0] == 58u8 {
            let name = copy_range(seg, 1, seg.len());
            assert(name@ =~= seg@.drop_first());
            map.insert(name, slice_to_vec(segs[i].as_slice()));
            any = true;
            assert(pre[i as int] == seg@);
        } else {
            assert(has_param(pre) == has_param(pv.subrange(0, i as int))) by {
                if has_param(pre) {
                    let k = choose|k: int| 0 <= k < pre.len() && is_param(#[trigger] pre[k]);
                    assert(k != i);
                    assert(pv.subrange(0, i as int)[k] == pre[k]);
                }
            }
        }
        i = i + 1;
    }
    assert(pv.subrange(0, pat@.len() as int) =~= pv);
    (map, any)
}

/// Splits a path into its segments after the leading `/`.
fn path_segments(path: &[u8]) -> (r: Vec<Vec<u8>>)
    requires
        !is_root(path@),
    ensures
        views(r@) == segments(path@),
{
    let sep: [u8; 1] = [47u8];
    let mut full = split_bytes(path, &sep);
    assert(sep@ =~= slash());
    let ghost fv = views(full@);
    let _ = full.remove(0);
    assert(views(full@) =~= fv.drop_first());
    full
}

impl<F: Copy> Node<F> {
    /// Finds the handler for `path` and the parameters it captures.
    pub fn get_handler(&self, path: &[u8]) -> (r: Option<RoutingResult<F>>)
        ensures
            match route_of(*self, path@) {
                Some(found) => r matches Some(rr) && reports(rr, found, path@),
                None => r is None,
            },
    {
        if path.len() == 1 && path[0] == 47u8 {
            assert(path@ =~= slash());
            return match self.handler {
                Some(h) => {
                    assert(!has_param(Seq::<Seq<u8>>::empty()));
                    Some(RoutingResult { handler: h, extract: None })
                },
                None => None,
            };
        }
        assert(!is_root(path@)) by {
            if is_root(path@) {
                assert(path@.len() == 1 && path@[0] == 47u8);
            }
        }
        if path.len() == 0 || path[0] != 47u8 {
            return None;
        }
        let segs = path_segments(path);
        if segs.len() == 0 {
            return None;
        }
        let found = match scan_children(&self.children, &segs, 0, false) {
            Some(x) => Some(x),
            None => scan_children(&self.children, &segs, 0, true),
        };
        match found {
            Some(x) => {
                let (map, any) = capture_params(&x.1, &segs);
                let extract = if any { Some(map) } else { None };
                Some(RoutingResult { handler: x.0, extract })
            },
            None => None,
        }
    }

    /// Registers `handler` for the pattern `path`, replacing the handler of
    /// an equal pattern registered before.
    pub fn add_handler(&mut self, path: &[u8], handler: Handler<F>) -> (r: Result<(), RouteError>)
        requires
            wf(*old(self)),
        ensures
            wf(*final(self)),
            final(self).subpath@ == old(self).subpath@,
            r is Ok <==> valid_pattern(path@),
            r matches Err(e) ==> *final(self) == *old(self) && (e == RouteError::NoLeadingSlash
                <==> !has_leading_slash(path@)) && (e == RouteError::Unsupported <==> (
            has_leading_slash(path@) && has_forbidden(path@))),
            r is Ok ==> registered(*old(self), segments(path@), handler, *final(self)),
            r is Ok ==> inserted(*old(self), segments(path@), handler, *final(self)),
            final(self).segment@ == old(self).segment@,
    {
        if path.len() == 0 || path[0] != 47u8 {
            return Err(RouteError::NoLeadingSlash);
        }
        let mut i: usize = 0;
        while i < path.len()
            invariant
                *self == *old(self),
                wf(*old(self)),
                0 <= i <= path@.len(),
                path@.len() > 0 && path@[0] == 47u8,
                forall|j: int| 0 <= j < i ==> !is_forbidden(#[trigger] path@[j]),
            decreases path@.len() - i,
        {
            let b = path[i];
            if b == 46 || b == 38 || b == 40 || b == 41 || b == 61 || b == 123 || b == 125 || b == 36 {
                assert(is_forbidden(path@[i as int]));
                return Err(RouteError::Unsupported);
            }
            i = i + 1;
        }
        assert(!has_forbidden(path@));
        if path.len() == 1 {
            assert(path@ =~= slash());
            let none: Vec<Vec<u8>> = Vec::new();
            assert(valid_pattern(path@));
            self.insert(&none, 0, handler);
            assert(views(none@).subrange(0, 0) =~= segments(path@));
        } else {
            assert(!is_root(path@));
            let sep: [u8; 1] = [47u8];
            let full = split_bytes(path, &sep);
            assert(sep@ =~= slash());
            assert(views(full@).subrange(1, full@.len() as int) =~= segments(path@));
            let mut k: usize = 1;
            while k < full.len()
                invariant
                    *self == *old(self),
                    wf(*old(self)),
                    has_leading_slash(path@),
                    !has_forbidden(path@),
                    views(full@).subrange(1, full@.len() as int) == segments(path@),
                    1 <= k <= full@.len(),
                    forall|m: int| 1 <= m < k ==> (#[trigger] full@[m])@.len() > 0,
                decreases full@.len() - k,
            {
                if full[k].len() == 0 {
                    assert(segments(path@)[k - 1] == full@[k as int]@);
                    return Err(RouteError::EmptySegment);
                }
                k = k + 1;
            }
            proof {
                lemma_split_free(path@, 47u8);
                assert(seq![47u8] == slash());
                assert forall|m: int| 1 <= m < full@.len() implies is_segment(#[trigger] full@[m]@) by {
                    assert(views(full@)[m] == full@[m]@);
                }
                assert forall|m: int| 0 <= m < segments(path@).len() implies (#[trigger] segments(path@)[m]).len() > 0 by {
                    assert(segments(path@)[m] == full@[m + 1]@);
                }
            }
            self.insert(&full, 1, handler);
            assert(views(full@).subrange(1, full@.len() as int) =~= segments(path@));
        }
        Ok(())
    }
}

/// A route tree under construction, with its fallback handler and state.
pub struct Router<S, F> {
    pub routes: Node<F>,
    /// Handles the requests that no route matches.
    pub fallback: Option<Handler<F>>,
    /// The user state handed to stateful handlers.
    pub state: Option<S>,
}

impl<S, F: Copy> Router<S, F> {
    /// A router with no route, fallback or state.
    pub fn new() -> (r: Self)
        ensures
            r.routes.subpath@ == slash(),
            r.routes.children@.len() == 0,
            r.routes.handler is None,
            wf(r.routes),
            forall|q: Seq<Seq<u8>>| #[trigger] handler_at(r.routes, q) is None,
            r.fallback is None,
            r.state is None,
    {
        let root: [u8; 1] = [47u8];
        assert(root@ =~= slash());
        Router { routes: Node::new(&root), fallback: None, state: None }
    }

    /// This router with `handler` registered for `path`.
    pub fn add_handler(self, path: &str, handler: Handler<F>) -> (r: Result<Self, RouteError>)
        requires
            wf(self.routes),
        ensures
            r matches Ok(n) ==> wf(n.routes) && n.routes.subpath@ == self.routes.subpath@,
            r is Ok <==> valid_pattern(path.spec_bytes()),
            r matches Err(e) ==> (e == RouteError::NoLeadingSlash <==> !has_leading_slash(path.spec_bytes()))
                && (e == RouteError::Unsupported <==> (has_leading_slash(path.spec_bytes()) && has_forbidden(
                path.spec_bytes(),
            ))),
            r matches Ok(n) ==> inserted(self.routes, segments(path.spec_bytes()), handler, n.routes),
            r matches Ok(n) ==> registered(self.routes, segments(path.spec_bytes()), handler, n.routes)
                && n.fallback == self.fallback && n.state == self.state,
    {
        let mut me = self;
        match me.routes.add_handler(path.as_bytes(), handler) {
            Ok(()) => Ok(me),
            Err(e) => Err(e),
        }
    }

    /// This router with `func` as its fallback handler.
    pub fn fallback(self, func: Handler<F>) -> (r: Self)
        ensures
            r.fallback == Some(func),
            r.routes == self.routes,
            r.state == self.state,
    {
        Router { routes: self.routes, fallback: Some(func), state: self.state }
    }

    /// This router with `state` installed.
    pub fn with_state(self, state: S) -> (r: Self)
        ensures
            r.state == Some(state),
            r.routes == self.routes,
            r.fallback == self.fallback,
    {
        Router { routes: self.routes, fallback: self.fallback, state: Some(state) }
    }

    /// Seals the router: from here on it is only read.
    pub fn make_into_serveable(self) -> (r: RouterServable<S, F>)
        ensures
            r.router == self,
    {
        RouterServable { router: self }
    }
}

/// A sealed router, shared read-only by every connection.
pub struct RouterServable<S, F> {
    pub router: Router<S, F>,
}

} // verus!
