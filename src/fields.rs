//! Name/value mappings: request headers, query parameters and path captures.
use vstd::prelude::*;
use vstd::slice::slice_to_vec;

verus! {

/// A byte-string pair seen through its views.
pub open spec fn pair_view(p: (Vec<u8>, Vec<u8>)) -> (Seq<u8>, Seq<u8>) {
    (p.0@, p.1@)
}

pub open spec fn pairs_view(e: Seq<(Vec<u8>, Vec<u8>)>) -> Seq<(Seq<u8>, Seq<u8>)> {
    e.map_values(|p: (Vec<u8>, Vec<u8>)| pair_view(p))
}

/// The mapping that a list of pairs denotes: a later pair overrides an
/// earlier one with the same name.
pub open spec fn map_of(ps: Seq<(Seq<u8>, Seq<u8>)>) -> Map<Seq<u8>, Seq<u8>>
    decreases ps.len(),
{
    if ps.len() == 0 {
        Map::empty()
    } else {
        map_of(ps.drop_last()).insert(ps.last().0, ps.last().1)
    }
}

/// Pairs after position `i` leave a name that none of them carries as it was.
pub proof fn lemma_map_of_skip(ps: Seq<(Seq<u8>, Seq<u8>)>, i: int, k: Seq<u8>)
    requires
        0 <= i <= ps.len(),
        forall|j: int| i <= j < ps.len() ==> ps[j].0 != k,
    ensures
        map_of(ps).contains_key(k) == map_of(ps.subrange(0, i)).contains_key(k),
        map_of(ps).contains_key(k) ==> map_of(ps)[k] == map_of(ps.subrange(0, i))[k],
    decreases ps.len() - i,
{
    if i == ps.len() {
        assert(ps.subrange(0, i) =~= ps);
    } else {
        let ps2 = ps.drop_last();
        lemma_map_of_skip(ps2, i, k);
        assert(ps2.subrange(0, i) =~= ps.subrange(0, i));
    }
}

/// Appending pairs overrides: the mapping of `a + b` is that of `a`
/// updated by that of `b`.
pub proof fn lemma_map_of_concat(a: Seq<(Seq<u8>, Seq<u8>)>, b: Seq<(Seq<u8>, Seq<u8>)>)
    ensures
        map_of(a + b) == map_of(a).union_prefer_right(map_of(b)),
    decreases b.len(),
{
    if b.len() == 0 {
        assert(a + b =~= a);
        assert(map_of(a).union_prefer_right(map_of(b)) =~= map_of(a));
    } else {
        lemma_map_of_concat(a, b.drop_last());
        assert((a + b).drop_last() =~= a + b.drop_last());
        assert(map_of(a + b) =~= map_of(a).union_prefer_right(map_of(b)));
    }
}

/// An ordered list of name/value pairs read as a mapping in which the last
/// pair with a given name wins.
#[derive(Clone, Debug, PartialEq, Eq, Default)]
pub struct FieldMap {
    pub entries: Vec<(Vec<u8>, Vec<u8>)>,
}

impl View for FieldMap {
    type V = Map<Seq<u8>, Seq<u8>>;

    open spec fn view(&self) -> Map<Seq<u8>, Seq<u8>> {
        map_of(self.pairs())
    }
}

impl FieldMap {
    /// The pairs in the order they were added.
    pub open spec fn pairs(&self) -> Seq<(Seq<u8>, Seq<u8>)> {
        pairs_view(self.entries@)
    }

    /// An empty mapping.
    pub fn new() -> (r: FieldMap)
        ensures
            r.pairs() == Seq::<(Seq<u8>, Seq<u8>)>::empty(),
            r@ == Map::<Seq<u8>, Seq<u8>>::empty(),
    {
        let r = FieldMap { entries: Vec::new() };
        assert(r.pairs() =~= Seq::<(Seq<u8>, Seq<u8>)>::empty());
        r
    }

    /// Binds `key` to `val`, replacing an earlier binding of `key`.
    pub fn insert(&mut self, key: Vec<u8>, val: Vec<u8>)
        ensures
            final(self).pairs() == old(self).pairs().push((key@, val@)),
            final(self)@ == old(self)@.insert(key@, val@),
    {
        self.entries.push((key, val));
        assert(self.pairs() =~= old(self).pairs().push((key@, val@)));
        assert(self.pairs().drop_last() =~= old(self).pairs());
    }

    /// Adds every binding of `other`, whose values win over those here.
    pub fn extend(&mut self, other: &FieldMap)
        ensures
            final(self).pairs() == old(self).pairs() + other.pairs(),
            final(self)@ == old(self)@.union_prefer_right(other@),
    {
        let mut i: usize = 0;
        while i < other.entries.len()
            invariant
                0 <= i <= other.entries@.len(),
                self.pairs() == old(self).pairs() + other.pairs().subrange(0, i as int),
            decreases other.entries@.len() - i,
        {
            let k = slice_to_vec(other.entries[i].0.as_slice());
            let v = slice_to_vec(other.entries[i].1.as_slice());
            self.insert(k, v);
            i = i + 1;
            assert(self.pairs() =~= old(self).pairs() + other.pairs().subrange(0, i as int));
        }
        assert(other.pairs().subrange(0, i as int) =~= other.pairs());
        proof {
            lemma_map_of_concat(old(self).pairs(), other.pairs());
        }
    }

    /// The value bound to `key`, if any.
    pub fn get(&self, key: &[u8]) -> (r: Option<&Vec<u8>>)
        ensures
            r is Some <==> self@.contains_key(key@),
            r matches Some(v) ==> self@[key@] == v@,
    {
        let mut i: usize = self.entries.len();
        while i > 0
            invariant
                i <= self.entries@.len(),
                forall|j: int| i <= j < self.entries@.len() ==> self.pairs()[j].0 != key@,
            decreases i,
        {
            let e = &self.entries[i - 1];
            if crate::types::bytes_eq(e.0.as_slice(), key) {
                proof {
                    let ps = self.pairs();
                    lemma_map_of_skip(ps, i as int, key@);
                    let pre = ps.subrange(0, i as int);
                    assert(pre.drop_last() =~= ps.subrange(0, i - 1));
                    assert(pre.last() == ps[i - 1]);
                }
                return Some(&e.1);
            }
            i = i - 1;
        }
        proof {
            lemma_map_of_skip(self.pairs(), 0, key@);
            assert(self.pairs().subrange(0, 0) =~= Seq::<(Seq<u8>, Seq<u8>)>::empty());
        }
        None
    }

    /// The number of pairs.
    pub fn len(&self) -> (r: usize)
        ensures
            r == self.pairs().len(),
    {
        self.entries.len()
    }
}

} // verus!
