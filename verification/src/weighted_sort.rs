//! Stable sorting of weighted elements: elements are ordered by weight, and elements of equal
//! weight keep the order they had.

use vstd::prelude::*;

verus! {

/// `s` with `x` put behind the last element whose weight is at most that of `x`, found by
/// searching from the end; at the front if there is none.
pub open spec fn inserted_by_weight<T>(s: Seq<(u64, T)>, x: (u64, T)) -> Seq<(u64, T)>
    decreases s.len(),
{
    if s.len() == 0 {
        seq![x]
    } else if s.last().0 <= x.0 {
        s.push(x)
    } else {
        inserted_by_weight(s.drop_last(), x).push(s.last())
    }
}

/// `s` sorted by weight; elements of equal weight keep their order.
pub open spec fn sorted_by_weight<T>(s: Seq<(u64, T)>) -> Seq<(u64, T)>
    decreases s.len(),
{
    if s.len() == 0 {
        s
    } else {
        inserted_by_weight(sorted_by_weight(s.drop_last()), s.last())
    }
}

proof fn lemma_inserted_at<T>(s: Seq<(u64, T)>, x: (u64, T), j: int)
    requires
        0 <= j <= s.len(),
        j > 0 ==> s[j - 1].0 <= x.0,
        forall|k: int| j <= k < s.len() ==> #[trigger] s[k].0 > x.0,
    ensures
        inserted_by_weight(s, x) == s.insert(j, x),
    decreases s.len(),
{
    if s.len() == 0 {
        assert(s.insert(j, x) =~= seq![x]);
    } else if j == s.len() {
        assert(s.insert(j, x) =~= s.push(x));
    } else {
        lemma_inserted_at(s.drop_last(), x, j);
        assert(s.drop_last().insert(j, x).push(s.last()) =~= s.insert(j, x));
    }
}

/// Sort by weight, keeping the order of elements of equal weight.
pub fn sort_by_weight<T>(v: Vec<(u64, T)>) -> (r: Vec<(u64, T)>)
    ensures
        r@ == sorted_by_weight(v@),
{
    let ghost orig = v@;
    let mut rest = v;
    let mut result: Vec<(u64, T)> = Vec::new();
    let ghost mut k: int = 0;
    while rest.len() > 0
        invariant
            0 <= k <= orig.len(),
            rest@ == orig.skip(k),
            result@ == sorted_by_weight(orig.take(k)),
        decreases rest.len(),
    {
        let x = rest.remove(0);
        let mut j = result.len();
        while j > 0 && result[j - 1].0 > x.0
            invariant
                j <= result.len(),
                forall|i: int| j <= i < result.len() ==> #[trigger] result[i].0 > x.0,
            decreases j,
        {
            j -= 1;
        }
        proof {
            lemma_inserted_at(result@, x, j as int);
            assert(orig.take(k + 1).drop_last() =~= orig.take(k));
            assert(orig.take(k + 1).last() == x);
        }
        result.insert(j, x);
        proof {
            k = k + 1;
            assert(rest@ =~= orig.skip(k));
        }
    }
    proof {
        assert(orig.take(k) =~= orig);
    }
    result
}

/// The sum of `f` over the elements of `s`.
pub open spec fn total<T>(s: Seq<(u64, T)>, f: spec_fn((u64, T)) -> nat) -> nat
    decreases s.len(),
{
    if s.len() == 0 {
        0
    } else {
        total(s.drop_last(), f) + f(s.last())
    }
}

proof fn lemma_total_inserted<T>(s: Seq<(u64, T)>, x: (u64, T), f: spec_fn((u64, T)) -> nat)
    ensures
        total(inserted_by_weight(s, x), f) == total(s, f) + f(x),
    decreases s.len(),
{
    if s.len() == 0 {
        assert(seq![x].drop_last() =~= s);
    } else if s.last().0 <= x.0 {
        assert(s.push(x).drop_last() =~= s);
    } else {
        lemma_total_inserted(s.drop_last(), x, f);
        assert(inserted_by_weight(s, x).drop_last() =~= inserted_by_weight(s.drop_last(), x));
    }
}

/// Sorting keeps every sum over the elements.
pub proof fn lemma_total_sorted<T>(s: Seq<(u64, T)>, f: spec_fn((u64, T)) -> nat)
    ensures
        total(sorted_by_weight(s), f) == total(s, f),
    decreases s.len(),
{
    if s.len() > 0 {
        lemma_total_sorted(s.drop_last(), f);
        lemma_total_inserted(sorted_by_weight(s.drop_last()), s.last(), f);
    }
}

proof fn lemma_inserted_elements<T>(s: Seq<(u64, T)>, x: (u64, T))
    ensures
        inserted_by_weight(s, x).len() == s.len() + 1,
        forall|i: int|
            0 <= i < inserted_by_weight(s, x).len() ==> #[trigger] inserted_by_weight(s, x)[i] == x
                || s.contains(inserted_by_weight(s, x)[i]),
    decreases s.len(),
{
    if s.len() > 0 && s.last().0 > x.0 {
        lemma_inserted_elements(s.drop_last(), x);
        let r = inserted_by_weight(s, x);
        assert forall|i: int| 0 <= i < r.len() implies #[trigger] r[i] == x || s.contains(r[i]) by {
            if i == r.len() - 1 {
                assert(s[s.len() - 1] == r[i]);
            } else {
                let y = r[i];
                assert(r[i] == inserted_by_weight(s.drop_last(), x)[i]);
                if y != x {
                    let w = choose|w: int| 0 <= w < s.drop_last().len() && s.drop_last()[w] == y;
                    assert(s[w] == y);
                }
            }
        }
    } else if s.len() > 0 {
        let r = inserted_by_weight(s, x);
        assert forall|i: int| 0 <= i < r.len() implies #[trigger] r[i] == x || s.contains(r[i]) by {
            if i < s.len() {
                assert(s[i] == r[i]);
            }
        }
    }
}

/// Every element of the sorted sequence is an element of the sequence, and the length is
/// kept.
pub proof fn lemma_sorted_elements<T>(s: Seq<(u64, T)>)
    ensures
        sorted_by_weight(s).len() == s.len(),
        forall|i: int|
            0 <= i < sorted_by_weight(s).len() ==> s.contains(#[trigger] sorted_by_weight(s)[i]),
    decreases s.len(),
{
    if s.len() > 0 {
        let prev = sorted_by_weight(s.drop_last());
        lemma_sorted_elements(s.drop_last());
        lemma_inserted_elements(prev, s.last());
        let r = sorted_by_weight(s);
        assert forall|i: int| 0 <= i < r.len() implies s.contains(#[trigger] r[i]) by {
            if r[i] == s.last() {
                assert(s[s.len() - 1] == r[i]);
            } else {
                let w = choose|w: int| 0 <= w < prev.len() && prev[w] == r[i];
                let u = choose|u: int| 0 <= u < s.drop_last().len() && s.drop_last()[u] == prev[w];
                assert(s[u] == r[i]);
            }
        }
    }
}

proof fn lemma_inserted_contains<T>(s: Seq<(u64, T)>, x: (u64, T))
    ensures
        inserted_by_weight(s, x).contains(x),
        forall|i: int| 0 <= i < s.len() ==> inserted_by_weight(s, x).contains(#[trigger] s[i]),
    decreases s.len(),
{
    let r = inserted_by_weight(s, x);
    if s.len() == 0 {
        assert(r[0] == x);
    } else if s.last().0 <= x.0 {
        assert(r[s.len() as int] == x);
        assert forall|i: int| 0 <= i < s.len() implies r.contains(#[trigger] s[i]) by {
            assert(r[i] == s[i]);
        }
    } else {
        let p = s.drop_last();
        let q = inserted_by_weight(p, x);
        lemma_inserted_contains(p, x);
        let w = choose|w: int| 0 <= w < q.len() && q[w] == x;
        assert(r[w] == x);
        assert forall|i: int| 0 <= i < s.len() implies r.contains(#[trigger] s[i]) by {
            if i == s.len() - 1 {
                assert(r[q.len() as int] == s[i]);
            } else {
                assert(p[i] == s[i]);
                assert(q.contains(p[i]));
                let u = choose|u: int| 0 <= u < q.len() && q[u] == p[i];
                assert(r[u] == s[i]);
            }
        }
    }
}

/// Every element of the sequence is an element of the sorted sequence.
pub proof fn lemma_sorted_contains<T>(s: Seq<(u64, T)>)
    ensures
        forall|i: int| 0 <= i < s.len() ==> sorted_by_weight(s).contains(#[trigger] s[i]),
    decreases s.len(),
{
    if s.len() > 0 {
        let p = s.drop_last();
        let q = sorted_by_weight(p);
        lemma_sorted_contains(p);
        lemma_inserted_contains(q, s.last());
        let r = sorted_by_weight(s);
        assert forall|i: int| 0 <= i < s.len() implies r.contains(#[trigger] s[i]) by {
            if i < s.len() - 1 {
                assert(p[i] == s[i]);
                assert(q.contains(p[i]));
                let u = choose|u: int| 0 <= u < q.len() && q[u] == p[i];
                assert(r.contains(q[u]));
            }
        }
    }
}

proof fn lemma_inserted_sorted<T>(s: Seq<(u64, T)>, x: (u64, T))
    requires
        forall|i: int, j: int| 0 <= i < j < s.len() ==> #[trigger] s[i].0 <= #[trigger] s[j].0,
    ensures
        forall|i: int, j: int|
            0 <= i < j < inserted_by_weight(s, x).len() ==> #[trigger] inserted_by_weight(s, x)[i].0
                <= #[trigger] inserted_by_weight(s, x)[j].0,
    decreases s.len(),
{
    lemma_inserted_elements(s, x);
    if s.len() > 0 && s.last().0 > x.0 {
        let p = s.drop_last();
        lemma_inserted_sorted(p, x);
        lemma_inserted_elements(p, x);
        let q = inserted_by_weight(p, x);
        let r = inserted_by_weight(s, x);
        assert forall|i: int, j: int| 0 <= i < j < r.len() implies #[trigger] r[i].0 <= #[trigger] r[j].0 by {
            if j == r.len() - 1 {
                assert(r[i] == q[i]);
                if q[i] != x {
                    let w = choose|w: int| 0 <= w < p.len() && p[w] == q[i];
                    assert(s[w] == p[w]);
                    assert(s[w].0 <= s[s.len() - 1].0);
                }
            } else {
                assert(r[i] == q[i] && r[j] == q[j]);
            }
        }
    }
}

/// The sorted sequence is ordered by weight.
pub proof fn lemma_sorted_ordered<T>(s: Seq<(u64, T)>)
    ensures
        forall|i: int, j: int|
            0 <= i < j < sorted_by_weight(s).len() ==> #[trigger] sorted_by_weight(s)[i].0
                <= #[trigger] sorted_by_weight(s)[j].0,
    decreases s.len(),
{
    if s.len() > 0 {
        lemma_sorted_ordered(s.drop_last());
        lemma_inserted_sorted(sorted_by_weight(s.drop_last()), s.last());
    }
}

proof fn lemma_inserted_no_duplicates<T>(s: Seq<(u64, T)>, x: (u64, T))
    requires
        s.no_duplicates(),
        !s.contains(x),
    ensures
        inserted_by_weight(s, x).no_duplicates(),
    decreases s.len(),
{
    if s.len() == 0 {
    } else if s.last().0 <= x.0 {
        let r = s.push(x);
        assert forall|i: int, j: int| 0 <= i < r.len() && 0 <= j < r.len() && i != j implies r[i]
            != r[j] by {
            if i == s.len() {
                assert(s.contains(r[j]) ==> r[j] != x);
                assert(s[j] == r[j]);
            } else if j == s.len() {
                assert(s[i] == r[i]);
            }
        }
    } else {
        let p = s.drop_last();
        assert forall|i: int, j: int| 0 <= i < p.len() && 0 <= j < p.len() && i != j implies p[i]
            != p[j] by {
            assert(p[i] == s[i] && p[j] == s[j]);
        }
        assert(!p.contains(x)) by {
            if p.contains(x) {
                let w = choose|w: int| 0 <= w < p.len() && p[w] == x;
                assert(s[w] == x);
            }
        }
        lemma_inserted_no_duplicates(p, x);
        lemma_inserted_elements(p, x);
        let q = inserted_by_weight(p, x);
        let r = q.push(s.last());
        assert forall|i: int, j: int| 0 <= i < r.len() && 0 <= j < r.len() && i != j implies r[i]
            != r[j] by {
            if i == q.len() || j == q.len() {
                let k = if i == q.len() { j } else { i };
                assert(r[k] == q[k]);
                if q[k] != x {
                    let w = choose|w: int| 0 <= w < p.len() && p[w] == q[k];
                    assert(s[w] == q[k]);
                    assert(s[s.len() - 1] == s.last());
                } else {
                    assert(s[s.len() - 1] != x);
                }
            } else {
                assert(r[i] == q[i] && r[j] == q[j]);
            }
        }
    }
}

/// Sorting a sequence without repeated elements repeats none.
pub proof fn lemma_sorted_no_duplicates<T>(s: Seq<(u64, T)>)
    requires
        s.no_duplicates(),
    ensures
        sorted_by_weight(s).no_duplicates(),
    decreases s.len(),
{
    if s.len() > 0 {
        let p = s.drop_last();
        assert forall|i: int, j: int| 0 <= i < p.len() && 0 <= j < p.len() && i != j implies p[i]
            != p[j] by {
            assert(p[i] == s[i] && p[j] == s[j]);
        }
        lemma_sorted_no_duplicates(p);
        lemma_sorted_elements(p);
        let q = sorted_by_weight(p);
        assert(!q.contains(s.last())) by {
            if q.contains(s.last()) {
                let w = choose|w: int| 0 <= w < q.len() && q[w] == s.last();
                assert(p.contains(q[w]));
                let u = choose|u: int| 0 <= u < p.len() && p[u] == q[w];
                assert(s[u] == s[s.len() - 1]);
            }
        }
        lemma_inserted_no_duplicates(q, s.last());
    }
}

/// Sorting commutes with changing what the elements carry besides their weight.
pub proof fn lemma_sorted_map<A, B>(s: Seq<(u64, A)>, f: spec_fn(A) -> B)
    ensures
        sorted_by_weight(s).map_values(|x: (u64, A)| (x.0, f(x.1))) == sorted_by_weight(
            s.map_values(|x: (u64, A)| (x.0, f(x.1))),
        ),
    decreases s.len(),
{
    let g = |x: (u64, A)| (x.0, f(x.1));
    if s.len() > 0 {
        lemma_sorted_map(s.drop_last(), f);
        assert(s.map_values(g).drop_last() =~= s.drop_last().map_values(g));
        lemma_inserted_map(sorted_by_weight(s.drop_last()), s.last(), f);
    } else {
        assert(s.map_values(g) =~= Seq::<(u64, B)>::empty());
        assert(sorted_by_weight(s).map_values(g) =~= Seq::<(u64, B)>::empty());
    }
}

proof fn lemma_inserted_map<A, B>(s: Seq<(u64, A)>, x: (u64, A), f: spec_fn(A) -> B)
    ensures
        inserted_by_weight(s, x).map_values(|y: (u64, A)| (y.0, f(y.1))) == inserted_by_weight(
            s.map_values(|y: (u64, A)| (y.0, f(y.1))),
            (x.0, f(x.1)),
        ),
    decreases s.len(),
{
    let g = |y: (u64, A)| (y.0, f(y.1));
    if s.len() == 0 {
        assert(inserted_by_weight(s, x).map_values(g) =~= seq![(x.0, f(x.1))]);
    } else if s.last().0 <= x.0 {
        assert(s.push(x).map_values(g) =~= s.map_values(g).push(g(x)));
    } else {
        lemma_inserted_map(s.drop_last(), x, f);
        assert(s.map_values(g).drop_last() =~= s.drop_last().map_values(g));
        assert(inserted_by_weight(s.drop_last(), x).push(s.last()).map_values(g)
            =~= inserted_by_weight(s.drop_last(), x).map_values(g).push(g(s.last())));
    }
}


} // verus!
