//! Sequences of ids without repetition, read as sets, and lookups in them.
use vstd::prelude::*;

verus! {

/// Whether `x` occurs in `v`.
pub fn vec_contains(v: &Vec<usize>, x: usize) -> (r: bool)
    ensures
        r == v@.contains(x),
{
    let mut i: usize = 0;
    while i < v.len()
        invariant
            i <= v@.len(),
            forall|j: int| 0 <= j < i ==> v@[j] != x,
        decreases v@.len() - i,
    {
        if v[i] == x {
            return true;
        }
        i = i + 1;
    }
    false
}

/// The ids that occur in `s`.
pub open spec fn elems(s: Seq<usize>) -> Set<usize> {
    Set::new(|x: usize| s.contains(x))
}

pub proof fn lemma_elems_push(s: Seq<usize>, v: usize)
    ensures
        elems(s.push(v)) == elems(s).insert(v),
{
    lemma_push_contains(s, v);
    assert(elems(s.push(v)) =~= elems(s).insert(v));
}

pub proof fn lemma_elems_prefix(s: Seq<usize>, i: int)
    requires
        0 <= i < s.len(),
    ensures
        elems(s.subrange(0, i + 1)) == elems(s.subrange(0, i)).insert(s[i]),
        elems(s.subrange(0, s.len() as int)) == elems(s),
{
    assert(s.subrange(0, i + 1) =~= s.subrange(0, i).push(s[i]));
    lemma_elems_push(s.subrange(0, i), s[i]);
    assert(s.subrange(0, s.len() as int) =~= s);
}

pub proof fn lemma_push_contains<T>(s: Seq<T>, v: T)
    ensures
        forall|y: T| #[trigger] s.push(v).contains(y) <==> s.contains(y) || y == v,
{
    assert forall|y: T| #[trigger] s.push(v).contains(y) <==> s.contains(y) || y == v by {
        if s.push(v).contains(y) && y != v {
            let j = choose|j: int| 0 <= j < s.push(v).len() && s.push(v)[j] == y;
            assert(s[j] == y);
        }
        if s.contains(y) {
            let j = choose|j: int| 0 <= j < s.len() && s[j] == y;
            assert(s.push(v)[j] == y);
        }
        if y == v {
            assert(s.push(v)[s.len() as int] == v);
        }
    }
}

/// Whether `s` is strictly increasing.
pub open spec fn strictly_sorted(s: Seq<usize>) -> bool {
    forall|i: int, j: int| 0 <= i < j < s.len() ==> s[i] < s[j]
}

/// The ids of `v`, which holds each once, in increasing order.
pub fn sorted_ids(v: &Vec<usize>) -> (r: Vec<usize>)
    requires
        v@.no_duplicates(),
    ensures
        strictly_sorted(r@),
        r@.no_duplicates(),
        elems(r@) == elems(v@),
{
    let mut r: Vec<usize> = Vec::new();
    let mut i: usize = 0;
    proof {
        assert(elems(r@) =~= elems(v@.subrange(0, 0)));
    }
    while i < v.len()
        invariant
            i <= v@.len(),
            v@.no_duplicates(),
            strictly_sorted(r@),
            elems(r@) == elems(v@.subrange(0, i as int)),
        decreases v@.len() - i,
    {
        let x = v[i];
        proof {
            lemma_elems_prefix(v@, i as int);
            if r@.contains(x) {
                assert(elems(v@.subrange(0, i as int)).contains(x));
                let j = choose|j: int| 0 <= j < i && v@.subrange(0, i as int)[j] == x;
                assert(v@[j] == v@[i as int]);
            }
        }
        let mut p: usize = 0;
        while p < r.len() && r[p] < x
            invariant
                p <= r@.len(),
                forall|j: int| 0 <= j < p ==> r@[j] < x,
            decreases r@.len() - p,
        {
            p = p + 1;
        }
        let ghost old_r = r@;
        r.insert(p, x);
        proof {
            if p < old_r.len() {
                assert(old_r[p as int] != x);
                assert(old_r[p as int] > x);
            }
            assert forall|a: int, b: int| 0 <= a < b < r@.len() implies r@[a] < r@[b] by {
                if b < p {
                } else if b == p {
                } else if a < p {
                    assert(old_r[a] < x);
                    assert(x < old_r[p as int] || p == old_r.len());
                    assert(old_r[a] < old_r[b - 1]);
                } else if a == p {
                    assert(x < old_r[p as int]);
                    assert(p == b - 1 || old_r[p as int] < old_r[b - 1]);
                } else {
                    assert(old_r[a - 1] < old_r[b - 1]);
                }
            }
            assert forall|y: usize| elems(r@).contains(y) <==> elems(old_r).insert(x).contains(y) by {
                if r@.contains(y) {
                    let j = choose|j: int| 0 <= j < r@.len() && r@[j] == y;
                    if j < p {
                        assert(old_r[j] == y);
                    } else if j > p {
                        assert(old_r[j - 1] == y);
                    }
                }
                if old_r.contains(y) {
                    let j = choose|j: int| 0 <= j < old_r.len() && old_r[j] == y;
                    if j < p {
                        assert(r@[j] == y);
                    } else {
                        assert(r@[j + 1] == y);
                    }
                }
                if y == x {
                    assert(r@[p as int] == x);
                }
            }
            assert(elems(r@) =~= elems(v@.subrange(0, i + 1)));
        }
        i = i + 1;
    }
    proof {
        assert(v@.subrange(0, i as int) =~= v@);
    }
    r
}

/// A copy of `v`.
pub fn copy_ids(v: &Vec<usize>) -> (r: Vec<usize>)
    ensures
        r@ == v@,
{
    let mut r: Vec<usize> = Vec::new();
    let mut i: usize = 0;
    while i < v.len()
        invariant
            i <= v@.len(),
            r@ == v@.subrange(0, i as int),
        decreases v@.len() - i,
    {
        r.push(v[i]);
        i = i + 1;
        assert(r@ =~= v@.subrange(0, i as int));
    }
    assert(r@ =~= v@);
    r
}

/// The position of `x` in `s`, for a sequence that holds `x` once.
pub open spec fn index_of(s: Seq<usize>, x: usize) -> int {
    choose|k: int| 0 <= k < s.len() && s[k] == x
}

pub proof fn lemma_index_of(s: Seq<usize>, k: int)
    requires
        s.no_duplicates(),
        0 <= k < s.len(),
    ensures
        index_of(s, s[k]) == k,
{
    let x = s[k];
    assert(0 <= k < s.len() && s[k] == x);
    let j = index_of(s, x);
    assert(0 <= j < s.len() && s[j] == x);
}

pub proof fn lemma_index_of_contains(s: Seq<usize>, x: usize)
    requires
        s.contains(x),
    ensures
        0 <= index_of(s, x) < s.len(),
        s[index_of(s, x)] == x,
{
}

/// The position of `x` in `v`, if it occurs.
pub fn position(v: &Vec<usize>, x: usize) -> (r: Option<usize>)
    ensures
        r is None <==> !v@.contains(x),
        r matches Some(k) ==> k < v@.len() && v@[k as int] == x && (v@.no_duplicates() ==> k == index_of(v@, x)),
{
    let mut i: usize = 0;
    while i < v.len()
        invariant
            i <= v@.len(),
            forall|j: int| 0 <= j < i ==> v@[j] != x,
        decreases v@.len() - i,
    {
        if v[i] == x {
            proof {
                if v@.no_duplicates() {
                    lemma_index_of(v@, i as int);
                }
            }
            return Some(i);
        }
        i = i + 1;
    }
    None
}

} // verus!
