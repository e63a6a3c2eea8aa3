//! Byte-string helpers shared by the registry and the aggregator.

use vstd::prelude::*;

verus! {

/// Strict lexicographic order on byte strings (a proper prefix comes first).
pub open spec fn lex_lt(a: Seq<u8>, b: Seq<u8>) -> bool
    decreases a.len(),
{
    if a.len() == 0 {
        b.len() > 0
    } else if b.len() == 0 {
        false
    } else if a[0] != b[0] {
        a[0] < b[0]
    } else {
        lex_lt(a.drop_first(), b.drop_first())
    }
}

/// No two positions of `s` hold the same value.
pub open spec fn all_distinct<T>(s: Seq<T>) -> bool {
    forall|i: int, j: int| 0 <= i < s.len() && 0 <= j < s.len() && i != j ==> s[i] != s[j]
}

/// Number of entries of `ids` that come strictly before `id`.
pub open spec fn count_less(ids: Seq<Seq<u8>>, id: Seq<u8>) -> nat
    decreases ids.len(),
{
    if ids.len() == 0 {
        0
    } else {
        count_less(ids.drop_last(), id) + if lex_lt(ids.last(), id) {
            1nat
        } else {
            0nat
        }
    }
}

/// A fresh copy of a byte string.
pub fn copy_bytes(b: &[u8]) -> (r: Vec<u8>)
    ensures
        r@ == b@,
{
    vstd::slice::slice_to_vec(b)
}

/// Whether two byte strings are equal.
pub fn bytes_eq(a: &[u8], b: &[u8]) -> (r: bool)
    ensures
        r == (a@ == b@),
{
    if a.len() != b.len() {
        return false;
    }
    let mut i: usize = 0;
    while i < a.len()
        invariant
            a@.len() == b@.len(),
            0 <= i <= a@.len(),
            forall|k: int| 0 <= k < i ==> a@[k] == b@[k],
        decreases a@.len() - i,
    {
        if a[i] != b[i] {
            return false;
        }
        i = i + 1;
    }
    assert(a@ =~= b@);
    true
}

proof fn lemma_lex_lt_skip(a: Seq<u8>, b: Seq<u8>, i: int)
    requires
        0 <= i <= a.len(),
        i <= b.len(),
        a.subrange(0, i) == b.subrange(0, i),
    ensures
        lex_lt(a, b) == lex_lt(a.skip(i), b.skip(i)),
    decreases i,
{
    if i > 0 {
        assert(a[0] == a.subrange(0, i)[0]);
        assert(b[0] == b.subrange(0, i)[0]);
        assert(a.drop_first().subrange(0, i - 1) =~= a.subrange(0, i).drop_first());
        assert(b.drop_first().subrange(0, i - 1) =~= b.subrange(0, i).drop_first());
        lemma_lex_lt_skip(a.drop_first(), b.drop_first(), i - 1);
        assert(a.drop_first().skip(i - 1) =~= a.skip(i));
        assert(b.drop_first().skip(i - 1) =~= b.skip(i));
    } else {
        assert(a.skip(0) =~= a);
        assert(b.skip(0) =~= b);
    }
}

/// Whether `a` comes strictly before `b` in lexicographic byte order.
pub fn bytes_lt(a: &[u8], b: &[u8]) -> (r: bool)
    ensures
        r == lex_lt(a@, b@),
{
    let mut i: usize = 0;
    while i < a.len() && i < b.len()
        invariant
            0 <= i <= a@.len(),
            i <= b@.len(),
            a@.subrange(0, i as int) == b@.subrange(0, i as int),
        decreases a@.len() - i,
    {
        if a[i] != b[i] {
            proof {
                lemma_lex_lt_skip(a@, b@, i as int);
                assert(a@.skip(i as int)[0] == a@[i as int]);
                assert(b@.skip(i as int)[0] == b@[i as int]);
            }
            return a[i] < b[i];
        }
        assert(a@.subrange(0, i + 1) =~= a@.subrange(0, i as int).push(a@[i as int]));
        assert(b@.subrange(0, i + 1) =~= b@.subrange(0, i as int).push(b@[i as int]));
        i = i + 1;
    }
    proof {
        lemma_lex_lt_skip(a@, b@, i as int);
    }
    i == a.len() && i < b.len()
}

/// Position of `id` in the lexicographic order of `ids`: the number of
/// entries that come strictly before it.
pub fn rank_of(ids: &Vec<Vec<u8>>, id: &[u8]) -> (r: usize)
    ensures
        r == count_less(ids@.map_values(|v: Vec<u8>| v@), id@),
{
    let ghost views = ids@.map_values(|v: Vec<u8>| v@);
    let mut n: usize = 0;
    let mut i: usize = 0;
    while i < ids.len()
        invariant
            views == ids@.map_values(|v: Vec<u8>| v@),
            0 <= i <= ids@.len(),
            n == count_less(views.take(i as int), id@),
            n <= i,
        decreases ids@.len() - i,
    {
        assert(views.take(i + 1).drop_last() =~= views.take(i as int));
        if bytes_lt(ids[i].as_slice(), id) {
            n = n + 1;
        }
        i = i + 1;
    }
    assert(views.take(i as int) =~= views);
    n
}

/// Whether no byte string occurs twice in `items`.
pub fn has_unique_elements(items: &Vec<Vec<u8>>) -> (r: bool)
    ensures
        r == all_distinct(items@.map_values(|v: Vec<u8>| v@)),
{
    let ghost views = items@.map_values(|v: Vec<u8>| v@);
    let mut i: usize = 0;
    while i < items.len()
        invariant
            views == items@.map_values(|v: Vec<u8>| v@),
            0 <= i <= items@.len(),
            forall|p: int, q: int| 0 <= p < i && 0 <= q < items@.len() && p != q ==> views[p] != views[q],
        decreases items@.len() - i,
    {
        let mut j: usize = 0;
        while j < items.len()
            invariant
                views == items@.map_values(|v: Vec<u8>| v@),
                0 <= i < items@.len(),
                0 <= j <= items@.len(),
                forall|p: int, q: int| 0 <= p < i && 0 <= q < items@.len() && p != q ==> views[p] != views[q],
                forall|q: int| 0 <= q < j && q != i ==> views[i as int] != views[q],
            decreases items@.len() - j,
        {
            if j != i && bytes_eq(items[i].as_slice(), items[j].as_slice()) {
                assert(views[i as int] == views[j as int]);
                return false;
            }
            j = j + 1;
        }
        i = i + 1;
    }
    true
}

} // verus!
