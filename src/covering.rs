use vstd::prelude::*;

use crate::bitset::Bitset;
use crate::corpus::{ascending_positions, pos_lt, Corpus, KnownLength, Position, SubsetTest};
use crate::string_wrapped::StringWrapped;

verus! {

/// The set at `p` is longer than `a` and passes `a`'s subset test.
pub open spec fn is_superset_at<T: SubsetTest>(c: &Corpus<T>, a: &T, p: Position) -> bool {
    &&& c.has(p)
    &&& p.0 >= a.spec_len()
    &&& a.subset_spec(&c.at(p))
}

/// The set at `p` is a superset of `a` of the least length among the supersets of
/// `a` in the corpus.
pub open spec fn is_covering_at<T: SubsetTest>(c: &Corpus<T>, a: &T, p: Position) -> bool {
    &&& is_superset_at(c, a, p)
    &&& forall|q: Position| #[trigger] is_superset_at(c, a, q) ==> p.0 <= q.0
}

/// A covering edge: from the set at one position to the set at another.
pub type Edge = (Position, Position);

/// The set at `e.1` covers the set at `e.0`.
pub open spec fn is_edge<T: SubsetTest>(c: &Corpus<T>, e: Edge) -> bool {
    c.has(e.0) && is_covering_at(c, &c.at(e.0), e.1)
}

/// `e` comes before `f`: by source position, then by target position.
pub open spec fn edge_lt(e: Edge, f: Edge) -> bool {
    pos_lt(e.0, f.0) || (e.0 == f.0 && pos_lt(e.1, f.1))
}

/// The positions of the supersets of `element` in the corpus, shortest first,
/// then in insertion order.
pub fn get_supersets<T: SubsetTest>(corpus: &Corpus<T>, element: &T) -> (r: Vec<Position>)
    requires
        corpus.wf(),
        element.valid(),
    ensures
        forall|k: int| 0 <= k < r@.len() ==> is_superset_at(corpus, element, #[trigger] r@[k]),
        ascending_positions(r@),
        forall|p: Position| #[trigger] is_superset_at(corpus, element, p) ==> r@.contains(p),
{
    let n = element.len();
    let cand = corpus.get_above(n);
    let mut r: Vec<Position> = Vec::new();
    let mut k: usize = 0;
    while k < cand.len()
        invariant
            corpus.wf(),
            element.valid(),
            n == element.spec_len(),
            k <= cand@.len(),
            forall|j: int| 0 <= j < cand@.len() ==> corpus.has(#[trigger] cand@[j]) && cand@[j].0 >= n,
            ascending_positions(cand@),
            forall|p: Position| #[trigger] corpus.has(p) && p.0 >= n ==> cand@.contains(p),
            forall|j: int| 0 <= j < r@.len() ==> is_superset_at(corpus, element, #[trigger] r@[j]),
            ascending_positions(r@),
            k < cand@.len() ==> forall|j: int| 0 <= j < r@.len() ==> pos_lt(#[trigger] r@[j], cand@[k as int]),
            forall|m: int|
                0 <= m < k && is_superset_at(corpus, element, #[trigger] cand@[m]) ==> r@.contains(cand@[m]),
        decreases cand@.len() - k,
    {
        let p = cand[k];
        let item = corpus.get(p);
        let ghost before = r@;
        if element.is_subset(item) {
            r.push(p);
            proof {
                assert(r@[before.len() as int] == p);
                assert forall|m: int|
                    0 <= m < k && is_superset_at(corpus, element, #[trigger] cand@[m]) implies r@.contains(cand@[m]) by {
                    let j = choose|j: int| 0 <= j < before.len() && before[j] == cand@[m];
                    assert(r@[j] == cand@[m]);
                }
            }
        }
        proof {
            if k + 1 < cand@.len() {
                assert(pos_lt(cand@[k as int], cand@[k + 1]));
            }
        }
        k += 1;
    }
    proof {
        assert forall|p: Position| #[trigger] is_superset_at(corpus, element, p) implies r@.contains(p) by {
            assert(corpus.has(p) && p.0 >= n);
            assert(cand@.contains(p));
            let m = choose|m: int| 0 <= m < cand@.len() && cand@[m] == p;
            assert(is_superset_at(corpus, element, cand@[m]));
        }
    }
    r
}

/// The positions of the supersets of `element` of least length: the targets of
/// its covering edges, in insertion order.
pub fn get_minimum_edges_for<T: SubsetTest>(corpus: &Corpus<T>, element: &T) -> (r: Vec<Position>)
    requires
        corpus.wf(),
        element.valid(),
    ensures
        forall|k: int| 0 <= k < r@.len() ==> is_covering_at(corpus, element, #[trigger] r@[k]),
        ascending_positions(r@),
        forall|p: Position| #[trigger] is_covering_at(corpus, element, p) ==> r@.contains(p),
{
    let candidates = get_supersets(corpus, element);
    let mut r: Vec<Position> = Vec::new();
    if candidates.len() == 0 {
        proof {
            assert forall|p: Position| #[trigger] is_covering_at(corpus, element, p)
                implies r@.contains(p) by {
                assert(candidates@.contains(p));
            }
        }
        return r;
    }
    let first = candidates[0];
    let min_len = corpus.get(first).len();
    proof {
        assert(is_superset_at(corpus, element, candidates@[0]));
        assert forall|p: Position| #[trigger] is_superset_at(corpus, element, p) implies first.0 <= p.0 by {
            assert(candidates@.contains(p));
            let l = choose|l: int| 0 <= l < candidates@.len() && candidates@[l] == p;
            if l > 0 {
                assert(pos_lt(candidates@[0], candidates@[l]));
            }
        }
    }
    let mut k: usize = 0;
    while k < candidates.len()
        invariant
            corpus.wf(),
            element.valid(),
            k <= candidates@.len(),
            candidates@.len() > 0,
            first == candidates@[0],
            min_len == first.0 + 1,
            is_superset_at(corpus, element, first),
            forall|p: Position| #[trigger] is_superset_at(corpus, element, p) ==> first.0 <= p.0,
            forall|j: int| 0 <= j < candidates@.len() ==> is_superset_at(corpus, element, #[trigger] candidates@[j]),
            ascending_positions(candidates@),
            forall|j: int| 0 <= j < r@.len() ==> is_covering_at(corpus, element, #[trigger] r@[j]),
            ascending_positions(r@),
            k < candidates@.len() ==> forall|j: int|
                0 <= j < r@.len() ==> pos_lt(#[trigger] r@[j], candidates@[k as int]),
            forall|m: int|
                0 <= m < k && is_covering_at(corpus, element, #[trigger] candidates@[m]) ==> r@.contains(candidates@[m]),
        decreases candidates@.len() - k,
    {
        let p = candidates[k];
        let ghost before = r@;
        if corpus.get(p).len() <= min_len {
            r.push(p);
            proof {
                assert(r@[before.len() as int] == p);
                assert(is_covering_at(corpus, element, p));
                assert forall|m: int|
                    0 <= m < k && is_covering_at(corpus, element, #[trigger] candidates@[m]) implies r@.contains(candidates@[m]) by {
                    let j = choose|j: int| 0 <= j < before.len() && before[j] == candidates@[m];
                    assert(r@[j] == candidates@[m]);
                }
            }
        }
        proof {
            if k + 1 < candidates@.len() {
                assert(pos_lt(candidates@[k as int], candidates@[k + 1]));
            }
        }
        k += 1;
    }
    proof {
        assert forall|p: Position| #[trigger] is_covering_at(corpus, element, p) implies r@.contains(p) by {
            assert(candidates@.contains(p));
            let m = choose|m: int| 0 <= m < candidates@.len() && candidates@[m] == p;
            assert(is_covering_at(corpus, element, candidates@[m]));
        }
    }
    r
}

/// Every covering edge of the corpus, by source position (shortest sets
/// first, then insertion order) and then by target position.
pub fn get_minimum_edges<T: SubsetTest>(corpus: &Corpus<T>) -> (r: Vec<Edge>)
    requires
        corpus.wf(),
    ensures
        forall|k: int| 0 <= k < r@.len() ==> is_edge(corpus, #[trigger] r@[k]),
        forall|k: int, l: int| 0 <= k < l < r@.len() ==> edge_lt(r@[k], r@[l]),
        forall|e: Edge| #[trigger] is_edge(corpus, e) ==> r@.contains(e),
{
    let all = corpus.get_above(0);
    let mut r: Vec<Edge> = Vec::new();
    let mut k: usize = 0;
    while k < all.len()
        invariant
            corpus.wf(),
            k <= all@.len(),
            forall|j: int| 0 <= j < all@.len() ==> corpus.has(#[trigger] all@[j]),
            ascending_positions(all@),
            forall|p: Position| #[trigger] corpus.has(p) && p.0 >= 0 ==> all@.contains(p),
            forall|j: int| 0 <= j < r@.len() ==> is_edge(corpus, #[trigger] r@[j]),
            forall|i: int, j: int| 0 <= i < j < r@.len() ==> edge_lt(r@[i], r@[j]),
            k < all@.len() ==> forall|j: int| 0 <= j < r@.len() ==> pos_lt((#[trigger] r@[j]).0, all@[k as int]),
            forall|m: int, q: Position|
                0 <= m < k && #[trigger] is_covering_at(corpus, &corpus.at(all@[m]), q) ==> r@.contains((all@[m], q)),
        decreases all@.len() - k,
    {
        let a = all[k];
        let element = corpus.get(a);
        let targets = get_minimum_edges_for(corpus, element);
        let ghost r0 = r@;
        let mut t: usize = 0;
        while t < targets.len()
            invariant
                corpus.wf(),
                corpus.has(a),
                *element == corpus.at(a),
                t <= targets@.len(),
                r@.len() == r0.len() + t,
                forall|j: int| 0 <= j < r0.len() ==> #[trigger] r@[j] == r0[j],
                forall|s: int| 0 <= s < t ==> #[trigger] r@[r0.len() + s] == (a, targets@[s]),
            decreases targets@.len() - t,
        {
            r.push((a, targets[t]));
            t += 1;
        }
        proof {
            assert forall|j: int| 0 <= j < r@.len() implies is_edge(corpus, #[trigger] r@[j]) by {
                if j >= r0.len() {
                    let s = j - r0.len();
                    assert(r@[r0.len() + s] == (a, targets@[s]));
                }
            }
            assert forall|i: int, j: int| 0 <= i < j < r@.len() implies edge_lt(r@[i], r@[j]) by {
                if j >= r0.len() {
                    let s = j - r0.len();
                    assert(r@[r0.len() + s] == (a, targets@[s]));
                    if i >= r0.len() {
                        let s = i - r0.len();
                        assert(r@[r0.len() + s] == (a, targets@[s]));
                    } else {
                        assert(pos_lt(r0[i].0, a));
                    }
                }
            }
            if k + 1 < all@.len() {
                assert(pos_lt(all@[k as int], all@[k + 1]));
                assert forall|j: int| 0 <= j < r@.len() implies pos_lt((#[trigger] r@[j]).0, all@[k + 1]) by {
                    if j >= r0.len() {
                        let s = j - r0.len();
                    assert(r@[r0.len() + s] == (a, targets@[s]));
                    } else {
                        assert(r@[j] == r0[j]);
                    }
                }
            }
            assert forall|m: int, q: Position|
                0 <= m < k + 1 && #[trigger] is_covering_at(corpus, &corpus.at(all@[m]), q) implies r@.contains((all@[m], q)) by {
                if m < k {
                    let j = choose|j: int| 0 <= j < r0.len() && r0[j] == (all@[m], q);
                    assert(r@[j] == (all@[m], q));
                } else {
                    assert(targets@.contains(q));
                    let s = choose|s: int| 0 <= s < targets@.len() && targets@[s] == q;
                    assert(r@[r0.len() + s] == (a, q));
                }
            }
        }
        k += 1;
    }
    proof {
        assert forall|e: Edge| #[trigger] is_edge(corpus, e) implies r@.contains(e) by {
            assert(corpus.has(e.0) && e.0.0 >= 0);
            assert(all@.contains(e.0));
            let m = choose|m: int| 0 <= m < all@.len() && all@[m] == e.0;
            assert(is_covering_at(corpus, &corpus.at(all@[m]), e.1));
        }
    }
    r
}

/// A set is never its own covering superset: the target of a covering edge
/// sits at another position and is strictly longer, so it is another value.
pub proof fn lemma_no_self_edges<T: SubsetTest>(c: &Corpus<T>, a: Position, b: Position)
    requires
        c.wf(),
        c.has(a),
        is_covering_at(c, &c.at(a), b),
    ensures
        b != a,
        c.at(b) != c.at(a),
{
}

/// The target of a covering edge is longer than its source and passes the
/// source's subset test.
pub proof fn lemma_edge_is_superset<T: SubsetTest>(c: &Corpus<T>, a: Position, b: Position)
    requires
        c.wf(),
        c.has(a),
        is_covering_at(c, &c.at(a), b),
    ensures
        c.at(b).spec_len() > c.at(a).spec_len(),
        c.at(a).subset_spec(&c.at(b)),
{
}

/// For bitsets, the source of a covering edge has each of its elements in the
/// target.
pub proof fn lemma_bitset_edge_is_superset(c: &Corpus<StringWrapped<Bitset>>, a: Position, b: Position)
    requires
        c.wf(),
        c.has(a),
        is_covering_at(c, &c.at(a), b),
    ensures
        c.at(b).internal@.len() > c.at(a).internal@.len(),
        c.at(a).internal@.subset_of(c.at(b).internal@),
{
}

/// No superset of the source of a covering edge is shorter than its target.
pub proof fn lemma_edge_is_minimal<T: SubsetTest>(c: &Corpus<T>, a: Position, b: Position, q: Position)
    requires
        c.wf(),
        c.has(a),
        is_covering_at(c, &c.at(a), b),
        is_superset_at(c, &c.at(a), q),
    ensures
        c.at(q).spec_len() >= c.at(b).spec_len(),
{
}

} // verus!
