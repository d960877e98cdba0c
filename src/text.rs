//! Byte-string primitives shared by the parser, the router and the encoder.
use vstd::prelude::*;
use vstd::slice::slice_to_vec;

verus! {

/// `sep` starts at position `i` of `s`.
pub open spec fn occurs_at(s: Seq<u8>, sep: Seq<u8>, i: int) -> bool {
    0 <= i && i + sep.len() <= s.len() && s.subrange(i, i + sep.len()) == sep
}

/// `i` is the first position at or after `start` where `sep` occurs in `s`.
pub open spec fn first_from(s: Seq<u8>, sep: Seq<u8>, start: int, i: int) -> bool {
    start <= i && occurs_at(s, sep, i) && forall|j: int| start <= j < i ==> !occurs_at(s, sep, j)
}

/// The first position at or after `start` where `sep` occurs in `s`.
pub open spec fn next_at(s: Seq<u8>, sep: Seq<u8>, start: int) -> Option<int> {
    if exists|i: int| first_from(s, sep, start, i) {
        Some(choose|i: int| first_from(s, sep, start, i))
    } else {
        None
    }
}

/// The first position where `sep` occurs in `s`.
pub open spec fn find(s: Seq<u8>, sep: Seq<u8>) -> Option<int> {
    next_at(s, sep, 0)
}

/// The pieces of `s[start..]` between occurrences of `sep`, left to right.
pub open spec fn split_from(s: Seq<u8>, sep: Seq<u8>, start: int) -> Seq<Seq<u8>>
    decreases s.len() - start,
{
    if sep.len() == 0 || start < 0 || start > s.len() {
        seq![]
    } else {
        match next_at(s, sep, start) {
            Some(k) => seq![s.subrange(start, k)] + split_from(s, sep, k + sep.len()),
            None => seq![s.subrange(start, s.len() as int)],
        }
    }
}

/// The pieces of `s` between occurrences of `sep` (`str::split`).
pub open spec fn split(s: Seq<u8>, sep: Seq<u8>) -> Seq<Seq<u8>> {
    split_from(s, sep, 0)
}

/// `s` holds no byte `b`.
pub open spec fn free_of(s: Seq<u8>, b: u8) -> bool {
    forall|i: int| 0 <= i < s.len() ==> s[i] != b
}

/// Views of a sequence of byte vectors.
pub open spec fn views(v: Seq<Vec<u8>>) -> Seq<Seq<u8>> {
    v.map_values(|x: Vec<u8>| x@)
}

/// An ASCII upper-case letter made lower case; other bytes unchanged.
pub open spec fn lower_byte(b: u8) -> u8 {
    if 65 <= b <= 90 { (b + 32) as u8 } else { b }
}

/// An ASCII lower-case letter made upper case; other bytes unchanged.
pub open spec fn upper_byte(b: u8) -> u8 {
    if 97 <= b <= 122 { (b - 32) as u8 } else { b }
}

pub open spec fn lower(s: Seq<u8>) -> Seq<u8> {
    s.map_values(|b: u8| lower_byte(b))
}

pub open spec fn upper(s: Seq<u8>) -> Seq<u8> {
    s.map_values(|b: u8| upper_byte(b))
}

/// The decimal digits of `n`, most significant first, with no leading zero.
pub open spec fn decimal(n: nat) -> Seq<u8>
    decreases n,
{
    if n < 10 {
        seq![(48 + n) as u8]
    } else {
        decimal(n / 10).push((48 + n % 10) as u8)
    }
}

proof fn lemma_first_unique(s: Seq<u8>, sep: Seq<u8>, start: int, i: int, j: int)
    requires
        first_from(s, sep, start, i),
        first_from(s, sep, start, j),
    ensures
        i == j,
{
}

/// The first occurrence at or after `start` is what `next_at` gives.
pub proof fn lemma_next_at(s: Seq<u8>, sep: Seq<u8>, start: int, i: int)
    requires
        first_from(s, sep, start, i),
    ensures
        next_at(s, sep, start) == Some(i),
{
    let c = choose|c: int| first_from(s, sep, start, c);
    lemma_first_unique(s, sep, start, i, c);
}

/// An occurrence past `p` in `p + y` is an occurrence in `y`.
pub proof fn lemma_occurs_shift(p: Seq<u8>, y: Seq<u8>, sep: Seq<u8>, j: int)
    requires
        0 <= j,
    ensures
        occurs_at(p + y, sep, p.len() + j) == occurs_at(y, sep, j),
{
    if occurs_at(y, sep, j) {
        assert((p + y).subrange(p.len() + j, p.len() + j + sep.len()) =~= y.subrange(j, j + sep.len()));
    }
    if occurs_at(p + y, sep, p.len() + j) {
        assert((p + y).subrange(p.len() + j, p.len() + j + sep.len()) =~= y.subrange(j, j + sep.len()));
    }
}

/// Splitting the tail of `p + y` from past `p` is splitting `y`.
pub proof fn lemma_split_shift(p: Seq<u8>, y: Seq<u8>, sep: Seq<u8>, k: int)
    requires
        0 <= k <= y.len(),
    ensures
        split_from(p + y, sep, p.len() + k) == split_from(y, sep, k),
    decreases y.len() - k,
{
    let s = p + y;
    if sep.len() == 0 {
        return;
    }
    assert forall|j: int| 0 <= j implies occurs_at(s, sep, p.len() + j) == occurs_at(y, sep, j) by {
        lemma_occurs_shift(p, y, sep, j);
    }
    if exists|i: int| first_from(y, sep, k, i) {
        let i = choose|i: int| first_from(y, sep, k, i);
        assert(first_from(s, sep, p.len() + k, p.len() + i)) by {
            assert forall|j: int| p.len() + k <= j < p.len() + i implies !occurs_at(s, sep, j) by {
                assert(occurs_at(s, sep, p.len() + (j - p.len())) == occurs_at(y, sep, j - p.len()));
            }
        }
        lemma_next_at(s, sep, p.len() + k, p.len() + i);
        lemma_next_at(y, sep, k, i);
        assert(s.subrange(p.len() + k, p.len() + i) =~= y.subrange(k, i));
        lemma_split_shift(p, y, sep, i + sep.len());
        assert(p.len() + i + sep.len() == p.len() + (i + sep.len()));
    } else {
        let st = p.len() + k;
        assert(!exists|i: int| first_from(s, sep, st, i)) by {
            if exists|i: int| first_from(s, sep, st, i) {
                let i = choose|i: int| first_from(s, sep, st, i);
                assert(occurs_at(s, sep, p.len() + (i - p.len())));
                assert(first_from(y, sep, k, i - p.len())) by {
                    assert forall|j: int| k <= j < i - p.len() implies !occurs_at(y, sep, j) by {
                        assert(occurs_at(s, sep, p.len() + j) == occurs_at(y, sep, j));
                    }
                }
            }
        }
        assert(s.subrange(p.len() + k, s.len() as int) =~= y.subrange(k, y.len() as int));
    }
}

/// When `sep` first occurs in `x + sep + y` right after `x`, splitting
/// gives `x` and then the pieces of `y`.
pub proof fn lemma_split_once(x: Seq<u8>, sep: Seq<u8>, y: Seq<u8>)
    requires
        sep.len() > 0,
        forall|i: int| 0 <= i < x.len() ==> !occurs_at(x + sep + y, sep, i),
    ensures
        split(x + sep + y, sep) == seq![x] + split(y, sep),
{
    let s = x + sep + y;
    assert(s.subrange(x.len() as int, (x.len() + sep.len()) as int) =~= sep);
    assert(first_from(s, sep, 0, x.len() as int));
    lemma_next_at(s, sep, 0, x.len() as int);
    assert(s.subrange(0, x.len() as int) =~= x);
    assert(s =~= (x + sep) + y);
    lemma_split_shift(x + sep, y, sep, 0);
}

/// Splitting a sequence in which `sep` does not occur gives it whole.
pub proof fn lemma_split_none(y: Seq<u8>, sep: Seq<u8>)
    requires
        sep.len() > 0,
        forall|i: int| 0 <= i ==> !occurs_at(y, sep, i),
    ensures
        split(y, sep) == seq![y],
{
    assert(!exists|i: int| first_from(y, sep, 0, i));
    assert(y.subrange(0, y.len() as int) =~= y);
}

proof fn lemma_split_from_free(s: Seq<u8>, b: u8, start: int)
    requires
        0 <= start <= s.len(),
    ensures
        forall|k: int| 0 <= k < split_from(s, seq![b], start).len() ==> free_of(
            #[trigger] split_from(s, seq![b], start)[k],
            b,
        ),
    decreases s.len() - start,
{
    let sep = seq![b];
    assert forall|j: int| 0 <= j < s.len() && s[j] == b implies occurs_at(s, sep, j) by {
        assert(s.subrange(j, j + 1) =~= sep);
    }
    match next_at(s, sep, start) {
        Some(k) => {
            assert(first_from(s, sep, start, choose|c: int| first_from(s, sep, start, c)));
            lemma_split_from_free(s, b, k + 1);
            let rest = split_from(s, sep, k + 1);
            assert forall|m: int| 0 <= m < split_from(s, sep, start).len() implies free_of(
                #[trigger] split_from(s, sep, start)[m],
                b,
            ) by {
                if m > 0 {
                    assert(split_from(s, sep, start)[m] == rest[m - 1]);
                }
            }
        },
        None => {
            assert(!exists|i: int| first_from(s, sep, start, i));
            assert forall|j: int| start <= j < s.len() implies s[j] != b by {
                if s[j] == b {
                    assert(occurs_at(s, sep, j));
                    assert(exists|i: int| first_from(s, sep, start, i)) by {
                        lemma_first_occurrence_exists(s, sep, start, j);
                    }
                }
            }
        },
    }
}

/// An occurrence at or after `start` means there is a first one.
proof fn lemma_first_occurrence_exists(s: Seq<u8>, sep: Seq<u8>, start: int, j: int)
    requires
        start <= j,
        occurs_at(s, sep, j),
    ensures
        exists|i: int| first_from(s, sep, start, i),
    decreases j - start,
{
    if forall|m: int| start <= m < j ==> !occurs_at(s, sep, m) {
        assert(first_from(s, sep, start, j));
    } else {
        let m = choose|m: int| start <= m < j && occurs_at(s, sep, m);
        lemma_first_occurrence_exists(s, sep, start, m);
    }
}

/// The pieces of a split on one byte do not hold that byte.
pub proof fn lemma_split_free(s: Seq<u8>, b: u8)
    ensures
        forall|k: int| 0 <= k < split(s, seq![b]).len() ==> free_of(#[trigger] split(s, seq![b])[k], b),
{
    lemma_split_from_free(s, b, 0);
}

/// The bytes `s[i..j]` as a vector of their own.
pub fn copy_range(s: &[u8], i: usize, j: usize) -> (r: Vec<u8>)
    requires
        i <= j <= s@.len(),
    ensures
        r@ == s@.subrange(i as int, j as int),
{
    slice_to_vec(&s[i..j])
}

/// Whether `sep` occurs at position `i` of `s`.
fn occurs_here(s: &[u8], sep: &[u8], i: usize) -> (r: bool)
    requires
        i <= s@.len(),
    ensures
        r == occurs_at(s@, sep@, i as int),
{
    if sep.len() > s.len() - i {
        return false;
    }
    let mut k: usize = 0;
    while k < sep.len()
        invariant
            i + sep@.len() <= s@.len() <= usize::MAX,
            0 <= k <= sep@.len(),
            forall|m: int| 0 <= m < k ==> s@[i + m] == sep@[m],
        decreases sep@.len() - k,
    {
        if s[i + k] != sep[k] {
            assert(s@.subrange(i as int, i + sep@.len())[k as int] != sep@[k as int]);
            return false;
        }
        k = k + 1;
    }
    assert(s@.subrange(i as int, i + sep@.len()) =~= sep@);
    true
}

/// The first position at or after `start` where `sep` occurs in `s`.
pub fn find_from(s: &[u8], sep: &[u8], start: usize) -> (r: Option<usize>)
    requires
        start <= s@.len(),
    ensures
        r matches Some(k) ==> next_at(s@, sep@, start as int) == Some(k as int),
        r is None ==> next_at(s@, sep@, start as int) is None,
        r matches Some(k) ==> first_from(s@, sep@, start as int, k as int),
        r is None ==> forall|j: int| start <= j ==> !occurs_at(s@, sep@, j),
{
    let mut i: usize = start;
    while i <= s.len() && sep.len() <= s.len() - i
        invariant
            start <= i,
            forall|j: int| start <= j < i ==> !occurs_at(s@, sep@, j),
        decreases s@.len() + 1 - i,
    {
        if occurs_here(s, sep, i) {
            assert(first_from(s@, sep@, start as int, i as int));
            proof {
                let c = choose|c: int| first_from(s@, sep@, start as int, c);
                lemma_first_unique(s@, sep@, start as int, i as int, c);
            }
            return Some(i);
        }
        assert(sep@.len() > 0) by {
            if sep@.len() == 0 {
                assert(s@.subrange(i as int, i as int) =~= sep@);
            }
        }
        i = i + 1;
    }
    assert(forall|j: int| start <= j ==> !occurs_at(s@, sep@, j)) by {
        assert forall|j: int| start <= j implies !occurs_at(s@, sep@, j) by {
            if j >= i {
                assert(i > s@.len() || sep@.len() > s@.len() - i);
            }
        }
    }
    None
}

/// Splits `s` at every occurrence of `sep` (`str::split`).
pub fn split_bytes(s: &[u8], sep: &[u8]) -> (r: Vec<Vec<u8>>)
    requires
        sep@.len() > 0,
    ensures
        views(r@) == split(s@, sep@),
        r@.len() >= 1,
{
    let mut out: Vec<Vec<u8>> = Vec::new();
    let mut pos: usize = 0;
    loop
        invariant
            sep@.len() > 0,
            pos <= s@.len(),
            views(out@) + split_from(s@, sep@, pos as int) == split(s@, sep@),
        decreases s@.len() - pos,
    {
        match find_from(s, sep, pos) {
            Some(k) => {
                assert(first_from(s@, sep@, pos as int, k as int));
                assert(k + sep@.len() <= s@.len());
                assert(k as int + sep.len() as int <= s.len() as int);
                let piece = copy_range(s, pos, k);
                proof {
                    assert(split_from(s@, sep@, pos as int) == seq![s@.subrange(pos as int, k as int)]
                        + split_from(s@, sep@, k + sep@.len()));
                    assert(views(out@.push(piece)) =~= views(out@).push(piece@));
                    assert(views(out@).push(piece@) + split_from(s@, sep@, k + sep@.len())
                        =~= views(out@) + split_from(s@, sep@, pos as int));
                }
                out.push(piece);
                pos = k + sep.len();
            },
            None => {
                let piece = copy_range(s, pos, s.len());
                proof {
                    assert(split_from(s@, sep@, pos as int) == seq![s@.subrange(pos as int, s@.len() as int)]);
                    assert(views(out@.push(piece)) =~= views(out@) + split_from(s@, sep@, pos as int));
                }
                out.push(piece);
                return out;
            },
        }
    }
}

/// `s` with its ASCII upper-case letters made lower case.
pub fn to_lower(s: &[u8]) -> (r: Vec<u8>)
    ensures
        r@ == lower(s@),
{
    let mut out: Vec<u8> = Vec::new();
    let mut i: usize = 0;
    while i < s.len()
        invariant
            0 <= i <= s@.len(),
            out@ =~= lower(s@.subrange(0, i as int)),
        decreases s@.len() - i,
    {
        let b = s[i];
        let c: u8 = if 65 <= b && b <= 90 { b + 32 } else { b };
        out.push(c);
        i = i + 1;
        assert(out@ =~= lower(s@.subrange(0, i as int)));
    }
    assert(s@.subrange(0, s@.len() as int) =~= s@);
    out
}

/// `s` with its ASCII lower-case letters made upper case.
pub fn to_upper(s: &[u8]) -> (r: Vec<u8>)
    ensures
        r@ == upper(s@),
{
    let mut out: Vec<u8> = Vec::new();
    let mut i: usize = 0;
    while i < s.len()
        invariant
            0 <= i <= s@.len(),
            out@ =~= upper(s@.subrange(0, i as int)),
        decreases s@.len() - i,
    {
        let b = s[i];
        let c: u8 = if 97 <= b && b <= 122 { b - 32 } else { b };
        out.push(c);
        i = i + 1;
        assert(out@ =~= upper(s@.subrange(0, i as int)));
    }
    assert(s@.subrange(0, s@.len() as int) =~= s@);
    out
}

/// Appends `t` to `out`.
pub fn append_bytes(out: &mut Vec<u8>, t: &[u8])
    ensures
        final(out)@ == old(out)@ + t@,
{
    let mut i: usize = 0;
    while i < t.len()
        invariant
            0 <= i <= t@.len(),
            out@ =~= old(out)@ + t@.subrange(0, i as int),
        decreases t@.len() - i,
    {
        out.push(t[i]);
        i = i + 1;
        assert(out@ =~= old(out)@ + t@.subrange(0, i as int));
    }
    assert(t@.subrange(0, t@.len() as int) =~= t@);
}

/// The decimal digits of `n`.
pub fn decimal_bytes(n: u64) -> (r: Vec<u8>)
    ensures
        r@ == decimal(n as nat),
    decreases n,
{
    if n < 10 {
        let mut v: Vec<u8> = Vec::new();
        v.push((48 + n) as u8);
        assert(v@ =~= decimal(n as nat));
        v
    } else {
        let mut v = decimal_bytes(n / 10);
        v.push((48 + n % 10) as u8);
        v
    }
}

} // verus!
