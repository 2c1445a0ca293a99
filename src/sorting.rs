use vstd::prelude::*;

verus! {

broadcast use vstd::seq_lib::group_seq_properties;

/// `s` is in strictly ascending order (so it holds no element twice).
pub open spec fn strictly_ascending(s: Seq<u32>) -> bool {
    forall|i: int, j: int| 0 <= i < j < s.len() ==> s[i] < s[j]
}

/// `s` is in ascending order, repeats allowed.
pub open spec fn ascending(s: Seq<u32>) -> bool {
    forall|i: int, j: int| 0 <= i < j < s.len() ==> s[i] <= s[j]
}

/// The elements of a prefix one longer are those of the prefix and the next element.
pub proof fn lemma_prefix_to_set_step<A>(s: Seq<A>, k: int)
    requires
        0 <= k < s.len(),
    ensures
        s.subrange(0, k + 1).to_set() == s.subrange(0, k).to_set().insert(s[k]),
{
    let s0 = s.subrange(0, k);
    let s1 = s.subrange(0, k + 1);
    assert forall|y: A| s1.contains(y) <==> (s0.contains(y) || y == s[k]) by {
        if s1.contains(y) {
            let m = choose|m: int| 0 <= m < s1.len() && s1[m] == y;
            if m < k {
                assert(s0[m] == y);
            }
        }
        if s0.contains(y) {
            let m = choose|m: int| 0 <= m < k && s0[m] == y;
            assert(s1[m] == y);
        }
        if y == s[k] {
            assert(s1[k] == y);
        }
    }
    assert(s1.to_set() =~= s0.to_set().insert(s[k]));
}

/// Relies on `slice::sort`: the elements are put in ascending order, as a
/// permutation of what was there.
#[verifier::external_body]
fn sort_in_place(v: &mut Vec<u32>)
    ensures
        final(v)@.to_multiset() == old(v)@.to_multiset(),
        ascending(final(v)@),
{
    v.sort();
}

/// The elements of `v`, each once, in ascending order.
pub fn sorted_distinct(v: Vec<u32>) -> (r: Vec<u32>)
    ensures
        strictly_ascending(r@),
        r@.to_set() == v@.to_set(),
        r@.len() <= v@.len(),
{
    let mut v = v;
    let ghost orig = v@;
    sort_in_place(&mut v);
    proof {
        assert forall|x: u32| v@.contains(x) <==> orig.contains(x) by {
            broadcast use vstd::seq_lib::group_to_multiset_ensures;

            assert(v@.to_multiset().count(x) == orig.to_multiset().count(x));
        }
        assert(v@.to_set() =~= orig.to_set());
    }
    let mut r: Vec<u32> = Vec::new();
    let mut i: usize = 0;
    while i < v.len()
        invariant
            0 <= i <= v@.len(),
            ascending(v@),
            strictly_ascending(r@),
            r@.len() <= i,
            r@.to_set() == v@.subrange(0, i as int).to_set(),
            i > 0 ==> r@.len() > 0 && r@.last() == v@[i - 1],
        decreases v@.len() - i,
    {
        let x = v[i];
        let ghost before = r@;
        if i == 0 || r[r.len() - 1] != x {
            r.push(x);
            proof {
                assert(v@.subrange(0, i + 1) == v@.subrange(0, i as int).push(x));
                assert(r@ == before.push(x));
                assert forall|y: u32| r@.contains(y) <==> (before.contains(y) || y == x) by {
                    if r@.contains(y) {
                        let k = choose|k: int| 0 <= k < r@.len() && r@[k] == y;
                        if k < before.len() {
                            assert(before[k] == y);
                        }
                    }
                    if before.contains(y) {
                        let k = choose|k: int| 0 <= k < before.len() && before[k] == y;
                        assert(r@[k] == y);
                    }
                    if y == x {
                        assert(r@[r@.len() - 1] == y);
                    }
                }
                assert(r@.to_set() =~= before.to_set().insert(x));
                assert(v@.subrange(0, i + 1).to_set() =~= v@.subrange(0, i as int).to_set().insert(x));
                assert forall|a: int, b: int| 0 <= a < b < r@.len() implies r@[a] < r@[b] by {
                    if b == r@.len() - 1 && i > 0 {
                        assert(before.last() == v@[i - 1]);
                        assert(v@[i - 1] <= x);
                        if a < before.len() - 1 {
                            assert(before[a] < before[before.len() - 1]);
                        }
                    }
                }
            }
        } else {
            proof {
                assert(v@.subrange(0, i + 1) == v@.subrange(0, i as int).push(x));
                assert(before.contains(before.last()));
                assert(v@.subrange(0, i as int).to_set().contains(x));
                assert(v@.subrange(0, i + 1).to_set() =~= v@.subrange(0, i as int).to_set());
            }
        }
        i += 1;
    }
    proof {
        assert(v@.subrange(0, v@.len() as int) == v@);
        vstd::seq_lib::to_multiset_len(orig);
        vstd::seq_lib::to_multiset_len(v@);
    }
    r
}

/// `s` is in strictly ascending order.
pub open spec fn strictly_ascending_indices(s: Seq<usize>) -> bool {
    forall|i: int, j: int| 0 <= i < j < s.len() ==> s[i] < s[j]
}

/// The indices of `v`, each once, in ascending order.
pub fn sorted_distinct_indices(v: Vec<usize>) -> (r: Vec<usize>)
    ensures
        strictly_ascending_indices(r@),
        r@.to_set() == v@.to_set(),
{
    let mut r: Vec<usize> = Vec::new();
    let mut i: usize = 0;
    assert(r@.to_set() =~= v@.subrange(0, 0).to_set());
    while i < v.len()
        invariant
            i <= v@.len(),
            strictly_ascending_indices(r@),
            r@.to_set() == v@.subrange(0, i as int).to_set(),
        decreases v@.len() - i,
    {
        let x = v[i];
        proof {
            lemma_prefix_to_set_step(v@, i as int);
        }
        let mut p: usize = 0;
        while p < r.len() && r[p] < x
            invariant
                p <= r@.len(),
                forall|j: int| 0 <= j < p ==> r@[j] < x,
            decreases r@.len() - p,
        {
            p += 1;
        }
        if p < r.len() && r[p] == x {
            proof {
                assert(r@.to_set().contains(x));
                assert(r@.to_set().insert(x) =~= r@.to_set());
            }
        } else {
            let ghost before = r@;
            r.insert(p, x);
            proof {
                assert(r@ =~= before.subrange(0, p as int).push(x) + before.subrange(p as int, before.len() as int));
                assert forall|a: int, b: int| 0 <= a < b < r@.len() implies r@[a] < r@[b] by {
                    if b < p {
                        assert(r@[a] == before[a] && r@[b] == before[b]);
                    } else if b == p {
                        assert(r@[a] == before[a]);
                    } else if a == p {
                        assert(r@[b] == before[b - 1]);
                        if b - 1 > p {
                            assert(before[p as int] < before[b - 1]);
                        }
                    } else if a < p {
                        assert(r@[a] == before[a] && r@[b] == before[b - 1]);
                    } else {
                        assert(r@[a] == before[a - 1] && r@[b] == before[b - 1]);
                    }
                }
                assert forall|y: usize| r@.contains(y) <==> (before.contains(y) || y == x) by {
                    if r@.contains(y) {
                        let k = choose|k: int| 0 <= k < r@.len() && r@[k] == y;
                        if k < p {
                            assert(before[k] == y);
                        } else if k > p {
                            assert(before[k - 1] == y);
                        }
                    }
                    if before.contains(y) {
                        let k = choose|k: int| 0 <= k < before.len() && before[k] == y;
                        if k < p {
                            assert(r@[k] == y);
                        } else {
                            assert(r@[k + 1] == y);
                        }
                    }
                    if y == x {
                        assert(r@[p as int] == x);
                    }
                }
                assert(r@.to_set() =~= before.to_set().insert(x));
            }
        }
        i += 1;
    }
    assert(v@.subrange(0, v@.len() as int) =~= v@);
    r
}

} // verus!
