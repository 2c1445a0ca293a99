use std::collections::HashMap;
use vstd::prelude::*;

use crate::sorting::{sorted_distinct_indices, strictly_ascending_indices};

verus! {

broadcast use vstd::std_specs::hash::group_hash_axioms, vstd::seq_lib::group_seq_properties;

/// A cursor over a sequence of alphabet indices, with an end marker above every index.
pub struct AlphaIterator {
    internal_vec: Vec<usize>,
    idx: usize,
    /// A value greater than every index of the alphabet.
    pub sentinel: usize,
}

impl AlphaIterator {
    /// The indices walked over.
    pub closed spec fn items(&self) -> Seq<usize> {
        self.internal_vec@
    }

    /// The end marker.
    pub closed spec fn sentinel_value(&self) -> usize {
        self.sentinel
    }

    /// How far the cursor has moved.
    pub closed spec fn position(&self) -> nat {
        self.idx as nat
    }

    pub open spec fn wf(&self) -> bool {
        self.position() <= self.items().len()
    }

    /// The index under the cursor, if any.
    pub open spec fn current_spec(&self) -> Option<usize> {
        if self.position() < self.items().len() {
            Some(self.items()[self.position() as int])
        } else {
            None
        }
    }

    /// A cursor at the start of `internal_vec`.
    pub fn new(internal_vec: Vec<usize>, sentinel: usize) -> (r: Self)
        ensures
            r.wf(),
            r.items() == internal_vec@,
            r.position() == 0,
            r.sentinel_value() == sentinel,
    {
        AlphaIterator { internal_vec, idx: 0, sentinel }
    }

    /// The index under the cursor, or `None` past the end.
    pub fn current(&self) -> (r: Option<usize>)
        ensures
            r == self.current_spec(),
    {
        if self.idx >= self.internal_vec.len() {
            return None;
        }
        Some(self.internal_vec[self.idx])
    }

    /// The index after the one under the cursor, if any.
    pub fn peek(&self) -> (r: Option<usize>)
        requires
            self.wf(),
        ensures
            r == if self.position() + 1 < self.items().len() {
                Some(self.items()[self.position() + 1int])
            } else {
                None
            },
    {
        if self.idx >= self.internal_vec.len() || self.idx + 1 >= self.internal_vec.len() {
            None
        } else {
            Some(self.internal_vec[self.idx + 1])
        }
    }

    /// Moves the cursor back to the start and returns the first index, if any.
    pub fn first(&mut self) -> (r: Option<usize>)
        ensures
            final(self).wf(),
            final(self).items() == old(self).items(),
            final(self).sentinel_value() == old(self).sentinel_value(),
            final(self).position() == 0,
            r == final(self).current_spec(),
    {
        self.idx = 0;
        if self.idx >= self.internal_vec.len() {
            None
        } else {
            Some(self.internal_vec[self.idx])
        }
    }

    /// Moves the cursor one step (not beyond the end) and returns the index now under it.
    pub fn next(&mut self) -> (r: Option<usize>)
        requires
            old(self).wf(),
        ensures
            final(self).wf(),
            final(self).items() == old(self).items(),
            final(self).sentinel_value() == old(self).sentinel_value(),
            final(self).position() == if old(self).position() < old(self).items().len() {
                old(self).position() + 1
            } else {
                old(self).position()
            },
            r == final(self).current_spec(),
    {
        if self.idx < self.internal_vec.len() {
            self.idx = self.idx + 1;
        }
        if self.idx >= self.internal_vec.len() {
            None
        } else {
            Some(self.internal_vec[self.idx])
        }
    }
}

struct TrieNode {
    label: usize,
    children: Vec<usize>,
    is_terminal: bool,
}

/// Node `j` is one of the children listed by `n`.
spec fn has_child(n: TrieNode, j: int) -> bool {
    exists|k: int| 0 <= k < n.children@.len() && #[trigger] n.children@[k] as int == j
}

/// `alphabet` numbers its keys 1, 2, ... in the order they were first seen.
pub open spec fn numbered_alphabet(alphabet: Map<usize, usize>) -> bool {
    &&& alphabet.dom().finite()
    &&& forall|x: usize| #[trigger] alphabet.contains_key(x) ==> 1 <= alphabet[x] <= alphabet.len()
    &&& forall|x: usize, y: usize|
        #[trigger] alphabet.contains_key(x) && #[trigger] alphabet.contains_key(y) && alphabet[x]
            == alphabet[y] ==> x == y
}

/// The elements of `items` not in `known`, each once, in order of first appearance.
pub open spec fn fresh_in_order(known: Set<usize>, items: Seq<usize>) -> Seq<usize>
    decreases items.len(),
{
    if items.len() == 0 {
        Seq::empty()
    } else {
        let f = fresh_in_order(known, items.drop_last());
        let x = items.last();
        if known.contains(x) || f.contains(x) {
            f
        } else {
            f.push(x)
        }
    }
}

/// The alphabet indices of the elements of `items`.
pub open spec fn alphabet_indices(alphabet: Map<usize, usize>, items: Set<usize>) -> Set<usize> {
    Set::new(|i: usize| exists|x: usize| items.contains(x) && #[trigger] alphabet[x] == i)
}

/// `a` is a prefix of `b`.
pub open spec fn is_prefix(a: Seq<usize>, b: Seq<usize>) -> bool {
    a.len() <= b.len() && b.subrange(0, a.len() as int) == a
}

/// Every index of `q` occurs in `s`.
pub open spec fn holds_all(s: Seq<usize>, q: Seq<usize>) -> bool {
    forall|t: int| 0 <= t < q.len() ==> s.contains(#[trigger] q[t])
}

/// A prefix tree over sets: each set is stored as the ascending sequence of the
/// alphabet indices of its elements.
pub struct SetTrie {
    alphabet: HashMap<usize, usize>,
    nodes: Vec<TrieNode>,
    paths: Ghost<Seq<Seq<usize>>>,
    parents: Ghost<Seq<int>>,
}

impl SetTrie {
    /// Element to alphabet index.
    pub closed spec fn alphabet(&self) -> Map<usize, usize> {
        self.alphabet@
    }

    /// The stored sets, each as its ascending sequence of alphabet indices.
    pub closed spec fn view(&self) -> Set<Seq<usize>> {
        Set::new(
            |s: Seq<usize>|
                exists|j: int|
                    0 <= j < self.nodes@.len() && #[trigger] self.nodes@[j].is_terminal
                        && self.paths@[j] == s,
        )
    }

    /// A stored set ends at node `v` or below it.
    pub closed spec fn terminal_below(&self, v: int) -> bool {
        exists|j: int|
            0 <= j < self.nodes@.len() && #[trigger] self.nodes@[j].is_terminal && is_prefix(
                self.paths@[v],
                self.paths@[j],
            )
    }

    /// The trie is well formed, and every node but the root leads to a stored set.
    pub closed spec fn wf(&self) -> bool {
        &&& self.shape()
        &&& forall|v: int| 0 < v < self.nodes@.len() ==> #[trigger] self.terminal_below(v)
    }

    /// The nodes form a tree over the alphabet, each path strictly ascending
    /// and reached by one node only.
    pub closed spec fn shape(&self) -> bool {
        &&& numbered_alphabet(self.alphabet@)
        &&& self.nodes@.len() >= 1
        &&& self.paths@.len() == self.nodes@.len()
        &&& self.paths@[0] == Seq::<usize>::empty()
        &&& forall|i: int, k: int|
            #![trigger self.nodes@[i].children@[k]]
            0 <= i < self.nodes@.len() && 0 <= k < self.nodes@[i].children@.len() ==> {
                let c = self.nodes@[i].children@[k] as int;
                &&& i < c < self.nodes@.len()
                &&& self.paths@[c] == self.paths@[i].push(self.nodes@[c].label)
            }
        &&& self.parents@.len() == self.nodes@.len()
        &&& forall|j: int|
            0 < j < self.nodes@.len() ==> 0 <= #[trigger] self.parents@[j] < j
                && has_child(self.nodes@[self.parents@[j]], j)
        &&& forall|j: int| 0 <= j < self.nodes@.len() ==> strictly_ascending_indices(#[trigger] self.paths@[j])
        &&& forall|i: int, j: int|
            0 <= i < self.nodes@.len() && 0 <= j < self.nodes@.len() && #[trigger] self.paths@[i]
                == #[trigger] self.paths@[j] ==> i == j
    }

    /// An empty trie.
    pub fn new() -> (r: Self)
        ensures
            r.shape(),
            r@ == Set::<Seq<usize>>::empty(),
            r.alphabet() == Map::<usize, usize>::empty(),
    {
        let mut nodes: Vec<TrieNode> = Vec::new();
        nodes.push(TrieNode { label: 0, children: Vec::new(), is_terminal: false });
        let r = SetTrie {
            alphabet: HashMap::new(),
            nodes,
            paths: Ghost(Seq::<Seq<usize>>::empty().push(Seq::<usize>::empty())),
            parents: Ghost(Seq::<int>::empty().push(0)),
        };
        assert(r@ =~= Set::<Seq<usize>>::empty());
        r
    }

    /// Numbers the unseen elements of `items` in their order of appearance,
    /// and returns a cursor over the ascending indices of all of them.
    fn get_alpha_iterator(alphabet: &mut HashMap<usize, usize>, items: Vec<usize>) -> (r:
        AlphaIterator)
        requires
            numbered_alphabet(old(alphabet)@),
            old(alphabet)@.len() + items@.len() < usize::MAX,
        ensures
            final(alphabet)@.len() <= old(alphabet)@.len() + items@.len(),
            r.sentinel_value() == final(alphabet)@.len() + 1,
            numbered_alphabet(final(alphabet)@),
            final(alphabet)@.dom() == old(alphabet)@.dom().union(items@.to_set()),
            forall|x: usize| #[trigger]
                old(alphabet)@.contains_key(x) ==> final(alphabet)@[x] == old(alphabet)@[x],
            r.wf(),
            r.position() == 0,
            strictly_ascending_indices(r.items()),
            r.items().to_set() == alphabet_indices(final(alphabet)@, items@.to_set()),
            forall|t: int|
                0 <= t < fresh_in_order(old(alphabet)@.dom(), items@).len() ==> final(alphabet)@[#[trigger] fresh_in_order(
                    old(alphabet)@.dom(),
                    items@,
                )[t]] == old(alphabet)@.len() + 1 + t,
    {
        let ghost a0 = alphabet@;
        let mut x: Vec<usize> = Vec::new();
        let mut k: usize = 0;
        while k < items.len()
            invariant
                0 <= k <= items@.len(),
                numbered_alphabet(alphabet@),
                a0.len() + items@.len() < usize::MAX,
                alphabet@.len() <= a0.len() + k,
                alphabet@.len() == a0.len() + fresh_in_order(a0.dom(), items@.subrange(0, k as int)).len(),
                alphabet@.dom() == a0.dom().union(fresh_in_order(a0.dom(), items@.subrange(0, k as int)).to_set()),
                forall|t: int|
                    0 <= t < fresh_in_order(a0.dom(), items@.subrange(0, k as int)).len() ==> alphabet@[#[trigger] fresh_in_order(
                        a0.dom(),
                        items@.subrange(0, k as int),
                    )[t]] == a0.len() + 1 + t,
                forall|t: int|
                    0 <= t < fresh_in_order(a0.dom(), items@.subrange(0, k as int)).len() ==> !a0.contains_key(
                        #[trigger] fresh_in_order(a0.dom(), items@.subrange(0, k as int))[t],
                    ),
                alphabet@.dom() == a0.dom().union(items@.subrange(0, k as int).to_set()),
                forall|y: usize| #[trigger] a0.contains_key(y) ==> alphabet@[y] == a0[y],
                x@.to_set() == alphabet_indices(alphabet@, items@.subrange(0, k as int).to_set()),
            decreases items@.len() - k,
        {
            let item = items[k];
            let ghost before = alphabet@;
            let ghost done = items@.subrange(0, k as int).to_set();
            proof {
                crate::sorting::lemma_prefix_to_set_step(items@, k as int);
            }
            let idx: usize = match alphabet.get(&item) {
                Some(v) => *v,
                None => {
                    let l = alphabet.len();
                    proof {
                        assert(before.dom().len() == l);
                        assert forall|y: usize| #[trigger] before.contains_key(y) implies before[y] <= l by {}
                    }
                    alphabet.insert(item, l + 1);
                    l + 1
                },
            };
            let ghost xb = x@;
            x.push(idx);
            proof {
                let a = alphabet@;
                let f0 = fresh_in_order(a0.dom(), items@.subrange(0, k as int));
                let f1 = fresh_in_order(a0.dom(), items@.subrange(0, k + 1));
                assert(items@.subrange(0, k + 1).drop_last() =~= items@.subrange(0, k as int));
                assert(items@.subrange(0, k + 1).last() == item);
                if before.contains_key(item) {
                    assert(a0.dom().contains(item) || f0.to_set().contains(item));
                    assert(f1 == f0);
                    assert(a == before);
                } else {
                    assert(!a0.dom().contains(item));
                    assert(!f0.contains(item)) by {
                        if f0.contains(item) {
                            assert(f0.to_set().contains(item));
                        }
                    }
                    assert(f1 == f0.push(item));
                    assert(f1.to_set() =~= f0.to_set().insert(item)) by {
                        assert forall|y: usize| f1.contains(y) <==> (f0.contains(y) || y == item) by {
                            if f1.contains(y) {
                                let q = choose|q: int| 0 <= q < f1.len() && f1[q] == y;
                                if q < f0.len() {
                                    assert(f0[q] == y);
                                }
                            }
                            if f0.contains(y) {
                                let q = choose|q: int| 0 <= q < f0.len() && f0[q] == y;
                                assert(f1[q] == y);
                            }
                            if y == item {
                                assert(f1[f0.len() as int] == y);
                            }
                        }
                    }
                    assert forall|t: int| 0 <= t < f1.len() implies a[#[trigger] f1[t]] == a0.len() + 1 + t by {
                        if t < f0.len() {
                            assert(f1[t] == f0[t]);
                            assert(before.contains_key(f0[t])) by {
                                assert(f0.to_set().contains(f0[t]));
                            }
                        }
                    }
                    assert forall|t: int| 0 <= t < f1.len() implies !a0.contains_key(#[trigger] f1[t]) by {
                        if t < f0.len() {
                            assert(f1[t] == f0[t]);
                        }
                    }
                    assert(a.dom() =~= a0.dom().union(f1.to_set()));
                }
                if !before.contains_key(item) {
                    assert(a.dom() =~= before.dom().insert(item));
                    assert(a.len() == before.len() + 1);
                }
                assert(a.dom() =~= a0.dom().union(done.insert(item)));
                assert forall|y: usize| #[trigger] before.contains_key(y) implies a[y] == before[y] by {}
                crate::sorting::lemma_prefix_to_set_step(x@, xb.len() as int);
                assert(x@.subrange(0, xb.len() as int) =~= xb);
                assert(x@.subrange(0, xb.len() + 1int) =~= x@);
                assert(x@.to_set() =~= alphabet_indices(a, done.insert(item))) by {
                    assert forall|i: usize| x@.to_set().contains(i) implies alphabet_indices(
                        a,
                        done.insert(item),
                    ).contains(i) by {
                        if i != idx {
                            assert(xb.to_set().contains(i));
                            let y = choose|y: usize| done.contains(y) && #[trigger] before[y] == i;
                            assert(before.contains_key(y));
                            assert(a[y] == i);
                            assert(done.insert(item).contains(y));
                        } else {
                            assert(a[item] == i);
                            assert(done.insert(item).contains(item));
                        }
                    }
                    assert forall|i: usize| alphabet_indices(a, done.insert(item)).contains(i)
                        implies x@.to_set().contains(i) by {
                        let y = choose|y: usize| done.insert(item).contains(y) && #[trigger] a[y] == i;
                        if y != item {
                            assert(before.contains_key(y));
                            assert(alphabet_indices(before, done).contains(i));
                        }
                    }
                }
            }
            k += 1;
        }
        proof {
            assert(items@.subrange(0, items@.len() as int) =~= items@);
        }
        let sorted = sorted_distinct_indices(x);
        let sentinel = alphabet.len() + 1;
        AlphaIterator::new(sorted, sentinel)
    }

    /// The child of node `cur` labelled `label`, if there is one.
    fn child_with_label(&self, cur: usize, label: usize) -> (r: Option<usize>)
        requires
            self.shape(),
            cur < self.nodes@.len(),
        ensures
            match r {
                Some(c) => exists|k: int|
                    0 <= k < self.nodes@[cur as int].children@.len()
                        && #[trigger] self.nodes@[cur as int].children@[k] == c
                        && self.nodes@[c as int].label == label,
                None => forall|k: int|
                    0 <= k < self.nodes@[cur as int].children@.len()
                        ==> self.nodes@[#[trigger] self.nodes@[cur as int].children@[k] as int].label != label,
            },
    {
        let children = &self.nodes[cur].children;
        let mut k: usize = 0;
        while k < children.len()
            invariant
                self.shape(),
                cur < self.nodes@.len(),
                *children == self.nodes@[cur as int].children,
                k <= children@.len(),
                forall|m: int| 0 <= m < k ==> self.nodes@[#[trigger] children@[m] as int].label != label,
            decreases children@.len() - k,
        {
            let c = children[k];
            assert(self.nodes@[cur as int].children@[k as int] == c);
            if self.nodes[c].label == label {
                return Some(c);
            }
            k += 1;
        }
        None
    }

    /// Walks down from node `cur` along the rest of `items`, adding nodes where
    /// none exist, and marks the last one as the end of a stored set.
    fn insert_helper(&mut self, cur: usize, items: &mut AlphaIterator)
        requires
            old(self).shape(),
            cur < old(self).nodes@.len(),
            old(items).wf(),
            strictly_ascending_indices(old(items).items()),
            old(self).paths@[cur as int] == old(items).items().subrange(0, old(items).position() as int),
        ensures
            final(self).shape(),
            final(self).alphabet() == old(self).alphabet(),
            final(self)@ == old(self)@.insert(old(items).items()),
            final(items).items() == old(items).items(),
            final(items).position() == old(items).items().len(),
            old(self).nodes@.len() <= final(self).nodes@.len(),
            forall|j: int|
                #![trigger final(self).nodes@[j]]
                0 <= j < old(self).nodes@.len() ==> {
                    &&& final(self).nodes@[j].label == old(self).nodes@[j].label
                    &&& final(self).paths@[j] == old(self).paths@[j]
                    &&& old(self).nodes@[j].children@.len() <= final(self).nodes@[j].children@.len()
                    &&& final(self).nodes@[j].children@.subrange(0, old(self).nodes@[j].children@.len() as int)
                        == old(self).nodes@[j].children@
                    &&& final(self).nodes@[j].is_terminal == (old(self).nodes@[j].is_terminal
                        || old(self).paths@[j] == old(items).items())
                },
            forall|j: int|
                #![trigger final(self).nodes@[j]]
                old(self).nodes@.len() <= j < final(self).nodes@.len() ==> is_prefix(
                    final(self).paths@[j],
                    old(items).items(),
                ) && final(self).nodes@[j].is_terminal == (final(self).paths@[j] == old(items).items()),
        decreases old(items).items().len() - old(items).position(),
    {
        let ghost old_view = self@;
        let ghost t0 = *self;
        let ghost s = items.items();
        match items.current() {
            Some(alpha_idx) => {
                let next_node = match self.child_with_label(cur, alpha_idx) {
                    Some(c) => c,
                    None => {
                        let n = self.nodes.len();
                        let ghost p = self.paths@[cur as int].push(alpha_idx);
                        let ghost nodes0 = self.nodes@;
                        self.nodes.push(TrieNode { label: alpha_idx, children: Vec::new(), is_terminal: false });
                        self.paths = Ghost(self.paths@.push(p));
                        self.parents = Ghost(self.parents@.push(cur as int));
                        let ghost nodes1 = self.nodes@;
                        self.nodes[cur].children.push(n);
                        proof {
                            assert forall|i: int| 0 <= i < self.nodes@.len() && i != cur implies
                                #[trigger] self.nodes@[i] == nodes1[i] by {}
                            assert forall|i: int, k: int|
                                0 <= i < self.nodes@.len() && 0 <= k < self.nodes@[i].children@.len()
                                implies {
                                    let c = #[trigger] self.nodes@[i].children@[k] as int;
                                    &&& i < c < self.nodes@.len()
                                    &&& self.paths@[c] == self.paths@[i].push(self.nodes@[c].label)
                                } by {
                                if i == cur && k == self.nodes@[i].children@.len() - 1 {
                                } else {
                                    assert(self.nodes@[i].children@[k] == nodes0[i].children@[k]);
                                    assert(old(self).nodes@[i].children@[k] == nodes0[i].children@[k]);
                                }
                            }
                            assert(self@ =~= old_view) by {
                                assert forall|s: Seq<usize>| self@.contains(s)
                                    implies old_view.contains(s) by {
                                    let j = choose|j: int|
                                        0 <= j < self.nodes@.len() && #[trigger] self.nodes@[j].is_terminal && self.paths@[j] == s;
                                    assert(j != n);
                                    assert(old(self).nodes@[j].is_terminal);
                                }
                                assert forall|s: Seq<usize>| old_view.contains(s)
                                    implies self@.contains(s) by {
                                    let j = choose|j: int|
                                        0 <= j < old(self).nodes@.len() && #[trigger] old(self).nodes@[j].is_terminal && old(self).paths@[j] == s;
                                    assert(self.nodes@[j].is_terminal);
                                }
                            }
                            assert(self.nodes@[cur as int].children@[self.nodes@[cur as int].children@.len() - 1] == n);
                            assert forall|j: int|
                                0 < j < self.nodes@.len() implies 0 <= #[trigger] self.parents@[j] < j
                                    && has_child(self.nodes@[self.parents@[j]], j) by {
                                if j < n {
                                    let q = self.parents@[j];
                                    assert(has_child(old(self).nodes@[q], j));
                                    let k = choose|k: int|
                                        0 <= k < old(self).nodes@[q].children@.len() && #[trigger] old(self).nodes@[q].children@[k] as int == j;
                                    assert(self.nodes@[q].children@[k] as int == j);
                                } else {
                                    let k = self.nodes@[cur as int].children@.len() - 1;
                                    assert(self.nodes@[cur as int].children@[k] as int == n);
                                }
                            }
                            assert(strictly_ascending_indices(p)) by {
                                let its = old(items).items();
                                let m = old(items).position() as int;
                                assert(p =~= its.subrange(0, m + 1));
                            }
                            assert forall|j: int| 0 <= j < self.nodes@.len()
                                implies strictly_ascending_indices(#[trigger] self.paths@[j]) by {
                                if j < n {
                                    assert(self.paths@[j] == old(self).paths@[j]);
                                }
                            }
                            assert forall|i: int, j: int|
                                0 <= i < self.nodes@.len() && 0 <= j < self.nodes@.len() && #[trigger] self.paths@[i]
                                    == #[trigger] self.paths@[j] implies i == j by {
                                if i == n && j < n {
                                    lemma_no_other_path(*old(self), cur as int, alpha_idx, j);
                                } else if j == n && i < n {
                                    lemma_no_other_path(*old(self), cur as int, alpha_idx, i);
                                } else if i < n && j < n {
                                    assert(old(self).paths@[i] == old(self).paths@[j]);
                                }
                            }
                        }
                        n
                    },
                };
                proof {
                    let k = choose|k: int|
                        0 <= k < self.nodes@[cur as int].children@.len()
                            && #[trigger] self.nodes@[cur as int].children@[k] == next_node
                            && self.nodes@[next_node as int].label == alpha_idx;
                    assert(self.paths@[next_node as int] == self.paths@[cur as int].push(alpha_idx));
                    assert(items.items().subrange(0, items.position() + 1int) =~= items.items().subrange(
                        0,
                        items.position() as int,
                    ).push(alpha_idx));
                }
                let ghost t1 = *self;
                let ghost pos = items.position();
                proof {
                    assert forall|j: int| 0 <= j < t0.nodes@.len() implies #[trigger] t1.nodes@[j].children@.subrange(
                        0,
                        t0.nodes@[j].children@.len() as int,
                    ) == t0.nodes@[j].children@ && t0.nodes@[j].children@.len() <= t1.nodes@[j].children@.len()
                        && t1.nodes@[j].label == t0.nodes@[j].label && t1.paths@[j]
                        == t0.paths@[j] && t1.nodes@[j].is_terminal == t0.nodes@[j].is_terminal by {
                        assert(t1.nodes@[j].children@.subrange(0, t0.nodes@[j].children@.len() as int)
                            =~= t0.nodes@[j].children@);
                    }
                    assert forall|j: int| t0.nodes@.len() <= j < t1.nodes@.len() implies is_prefix(
                        #[trigger] t1.paths@[j],
                        s,
                    ) && !t1.nodes@[j].is_terminal by {
                        let e: int = pos + 1int;
                        assert(t1.paths@[j] == s.subrange(0, e));
                        assert(s.subrange(0, e).len() == e);
                    }
                }
                items.next();
                self.insert_helper(next_node, items);
                proof {
                    assert forall|j: int| 0 <= j < t0.nodes@.len() implies #[trigger] self.nodes@[j].children@.subrange(
                        0,
                        t0.nodes@[j].children@.len() as int,
                    ) == t0.nodes@[j].children@ && t0.nodes@[j].children@.len() <= self.nodes@[j].children@.len()
                        && self.nodes@[j].label == t0.nodes@[j].label && self.paths@[j] == t0.paths@[j]
                        && self.nodes@[j].is_terminal == (t0.nodes@[j].is_terminal || t0.paths@[j] == s) by {
                        let a = t0.nodes@[j].children@.len() as int;
                        let b = t1.nodes@[j].children@.len() as int;
                        let x = self.nodes@[j].children@;
                        let y = t1.nodes@[j].children@;
                        assert(y.subrange(0, a) == t0.nodes@[j].children@);
                        assert(x.subrange(0, b) == y);
                        assert forall|i: int| 0 <= i < a implies x.subrange(0, a)[i] == y.subrange(0, a)[i] by {
                            assert(x.subrange(0, b)[i] == x[i]);
                        }
                        assert(x.subrange(0, a) =~= y.subrange(0, a));
                    }
                    assert forall|j: int| t0.nodes@.len() <= j < self.nodes@.len() implies is_prefix(
                        #[trigger] self.paths@[j],
                        s,
                    ) && self.nodes@[j].is_terminal == (self.paths@[j] == s) by {
                        let nj = self.nodes@[j];
                        if j < t1.nodes@.len() {
                            assert(is_prefix(t1.paths@[j], s) && !t1.nodes@[j].is_terminal);
                            assert(self.paths@[j] == t1.paths@[j]);
                            assert(nj.is_terminal == (t1.nodes@[j].is_terminal || t1.paths@[j] == s));
                        } else {
                            assert(is_prefix(self.paths@[j], s) && nj.is_terminal == (self.paths@[j] == s));
                        }
                    }
                }
            },
            None => {
                let ghost nodes0 = self.nodes@;
                self.nodes[cur].is_terminal = true;
                proof {
                    assert(items.position() == s.len());
                    assert(s.subrange(0, s.len() as int) =~= s);
                    assert forall|j: int| 0 <= j < t0.nodes@.len() implies #[trigger] self.nodes@[j].children@.subrange(
                        0,
                        t0.nodes@[j].children@.len() as int,
                    ) == t0.nodes@[j].children@ && (self.nodes@[j].is_terminal == (t0.nodes@[j].is_terminal
                        || t0.paths@[j] == s)) by {
                        assert(self.nodes@[j].children@.subrange(0, t0.nodes@[j].children@.len() as int)
                            =~= t0.nodes@[j].children@);
                        if j != cur && t0.paths@[j] == s {
                            assert(t0.paths@[j] == t0.paths@[cur as int]);
                        }
                    }
                    assert forall|i: int, k: int|
                        0 <= i < self.nodes@.len() && 0 <= k < self.nodes@[i].children@.len()
                        implies {
                            let c = #[trigger] self.nodes@[i].children@[k] as int;
                            &&& i < c < self.nodes@.len()
                            &&& self.paths@[c] == self.paths@[i].push(self.nodes@[c].label)
                        } by {
                        assert(self.nodes@[i].children@[k] == nodes0[i].children@[k]);
                    }
                    assert forall|j: int|
                        0 < j < self.nodes@.len() implies 0 <= #[trigger] self.parents@[j] < j
                            && has_child(self.nodes@[self.parents@[j]], j) by {
                        let q = self.parents@[j];
                        assert(self.nodes@[q].children@ == nodes0[q].children@);
                    }
                    assert(items.items().subrange(0, items.position() as int) =~= items.items());
                    assert(self@ =~= old_view.insert(items.items())) by {
                        assert forall|s: Seq<usize>| self@.contains(s)
                            implies old_view.insert(items.items()).contains(s) by {
                            let j = choose|j: int|
                                0 <= j < self.nodes@.len() && #[trigger] self.nodes@[j].is_terminal && self.paths@[j] == s;
                            if j != cur {
                                assert(nodes0[j].is_terminal);
                            }
                        }
                        assert forall|s: Seq<usize>| old_view.insert(items.items()).contains(s)
                            implies self@.contains(s) by {
                            if s == items.items() {
                                assert(self.nodes@[cur as int].is_terminal);
                            } else {
                                let j = choose|j: int|
                                    0 <= j < nodes0.len() && #[trigger] nodes0[j].is_terminal && self.paths@[j] == s;
                                assert(self.nodes@[j].is_terminal);
                            }
                        }
                    }
                }
            },
        }
    }

    /// The node `v` or a node below it ends a stored set holding every index of `q`.
    spec fn matches_below(&self, v: int, q: Seq<usize>) -> bool {
        exists|j: int|
            0 <= j < self.nodes@.len() && #[trigger] self.nodes@[j].is_terminal && is_prefix(
                self.paths@[v],
                self.paths@[j],
            ) && holds_all(self.paths@[j], q)
    }

    /// Whether a stored set below node `v` holds every index of `q`, given that
    /// the path to `v` holds the first `pos` of them and, if any are left,
    /// only indices below the next one.
    fn exists_superset_helper(&self, v: usize, q: &Vec<usize>, pos: usize) -> (r: bool)
        requires
            self.wf(),
            v < self.nodes@.len(),
            strictly_ascending_indices(q@),
            pos <= q@.len(),
            forall|t: int| 0 <= t < pos ==> self.paths@[v as int].contains(#[trigger] q@[t]),
            pos < q@.len() ==> forall|i: int|
                0 <= i < self.paths@[v as int].len() ==> #[trigger] self.paths@[v as int][i] < q@[pos as int],
        ensures
            r == self.matches_below(v as int, q@),
            pos == q@.len() ==> (r <==> (v > 0 || exists|s: Seq<usize>| #[trigger] self@.contains(s))),
            pos < q@.len() && self.nodes@[v as int].children@.len() == 0 ==> !r,
        decreases self.nodes@.len() - v,
    {
        if pos == q.len() && self.nodes[v].is_terminal {
            proof {
                assert(self.paths@[v as int].subrange(0, self.paths@[v as int].len() as int) =~= self.paths@[v as int]);
                assert(self.nodes@[v as int].is_terminal);
                assert(self@.contains(self.paths@[v as int]));
            }
            return true;
        }
        let children = &self.nodes[v].children;
        let mut found = false;
        let mut k: usize = 0;
        while k < children.len() && !found
            invariant
                self.wf(),
                v < self.nodes@.len(),
                *children == self.nodes@[v as int].children,
                strictly_ascending_indices(q@),
                pos <= q@.len(),
                forall|t: int| 0 <= t < pos ==> self.paths@[v as int].contains(#[trigger] q@[t]),
                pos < q@.len() ==> forall|i: int|
                    0 <= i < self.paths@[v as int].len() ==> #[trigger] self.paths@[v as int][i] < q@[pos as int],
                k <= children@.len(),
                k == 0 ==> !found,
                found ==> self.matches_below(v as int, q@),
                !found ==> forall|m: int| 0 <= m < k ==> !self.matches_below(#[trigger] children@[m] as int, q@),
            decreases children@.len() - k,
        {
            let c = children[k];
            let label = self.nodes[c].label;
            let ghost pv = self.paths@[v as int];
            proof {
                assert(self.nodes@[v as int].children@[k as int] == c);
                assert(self.paths@[c as int] == pv.push(label));
                assert forall|t: int| 0 <= t < pos
                    implies self.paths@[c as int].contains(#[trigger] q@[t]) by {
                    let i = choose|i: int| 0 <= i < pv.len() && pv[i] == q@[t];
                    assert(self.paths@[c as int][i] == q@[t]);
                }
            }
            if pos < q.len() {
                if label < q[pos] {
                    found = self.exists_superset_helper(c, q, pos);
                } else if label == q[pos] {
                    proof {
                        assert forall|t: int| 0 <= t < pos + 1
                            implies self.paths@[c as int].contains(#[trigger] q@[t]) by {
                            if t == pos {
                                assert(self.paths@[c as int][pv.len() as int] == q@[t]);
                            }
                        }
                        if pos + 1 < q@.len() {
                            assert(q@[pos as int] < q@[pos + 1]);
                        }
                    }
                    found = self.exists_superset_helper(c, q, pos + 1);
                } else {
                    proof {
                        if self.matches_below(c as int, q@) {
                            let j = choose|j: int|
                                0 <= j < self.nodes@.len() && #[trigger] self.nodes@[j].is_terminal && is_prefix(
                                    self.paths@[c as int],
                                    self.paths@[j],
                                ) && holds_all(self.paths@[j], q@);
                            let pj = self.paths@[j];
                            assert(pj.contains(q@[pos as int]));
                            let i = choose|i: int| 0 <= i < pj.len() && pj[i] == q@[pos as int];
                            assert(pj.subrange(0, pv.len() + 1int) == pv.push(label));
                            let head = pj.subrange(0, pv.len() + 1int);
                            assert(head[pv.len() as int] == pj[pv.len() as int]);
                            assert(head[pv.len() as int] == label);
                            if i < pv.len() {
                                assert(head[i] == pj[i]);
                                assert(pj[i] == pv[i]);
                            } else if i == pv.len() {
                                assert(pj[i] == label);
                            } else {
                                assert(pj[pv.len() as int] == label);
                                assert(pj[pv.len() as int] < pj[i]);
                            }
                        }
                    }
                }
            } else {
                found = self.exists_superset_helper(c, q, pos);
            }
            proof {
                if found {
                    let j = choose|j: int|
                        0 <= j < self.nodes@.len() && #[trigger] self.nodes@[j].is_terminal && is_prefix(
                            self.paths@[c as int],
                            self.paths@[j],
                        ) && holds_all(self.paths@[j], q@);
                    let pj = self.paths@[j];
                    assert(pj.subrange(0, pv.len() + 1int) == pv.push(label));
                    assert(pj.subrange(0, pv.len() as int) =~= pv);
                    assert(is_prefix(pv, pj));
                }
            }
            k += 1;
        }
        proof {
            if !found && self.matches_below(v as int, q@) {
                let j = choose|j: int|
                    0 <= j < self.nodes@.len() && #[trigger] self.nodes@[j].is_terminal && is_prefix(
                        self.paths@[v as int],
                        self.paths@[j],
                    ) && holds_all(self.paths@[j], q@);
                let pv = self.paths@[v as int];
                let pj = self.paths@[j];
                if pj.len() == pv.len() {
                    assert(pj =~= pv);
                    assert(j == v);
                    if pos < q@.len() {
                        assert(pv.contains(q@[pos as int]));
                        let i = choose|i: int| 0 <= i < pv.len() && pv[i] == q@[pos as int];
                        assert(pv[i] < q@[pos as int]);
                    }
                } else {
                    lemma_child_on_path(*self, v as int, j);
                    let m = choose|m: int|
                        0 <= m < self.nodes@[v as int].children@.len() && is_prefix(
                            self.paths@[#[trigger] self.nodes@[v as int].children@[m] as int],
                            pj,
                        );
                    assert(self.matches_below(children@[m] as int, q@));
                }
            }
        }
        proof {
            let pv = self.paths@[v as int];
            if pos == q@.len() {
                if v > 0 {
                    assert(self.terminal_below(v as int));
                    let j = choose|j: int|
                        0 <= j < self.nodes@.len() && #[trigger] self.nodes@[j].is_terminal && is_prefix(
                            pv,
                            self.paths@[j],
                        );
                    let pj = self.paths@[j];
                    assert forall|t: int| 0 <= t < q@.len() implies pj.contains(#[trigger] q@[t]) by {
                        assert(pv.contains(q@[t]));
                        let i = choose|i: int| 0 <= i < pv.len() && pv[i] == q@[t];
                        assert(pj.subrange(0, pv.len() as int)[i] == pj[i]);
                    }
                    assert(self.matches_below(v as int, q@));
                } else {
                    assert(pv.len() == 0);
                    if pos > 0 {
                        assert(pv.contains(q@[0]));
                    }
                    if exists|s: Seq<usize>| #[trigger] self@.contains(s) {
                        let s = choose|s: Seq<usize>| #[trigger] self@.contains(s);
                        let j = choose|j: int|
                            0 <= j < self.nodes@.len() && #[trigger] self.nodes@[j].is_terminal && self.paths@[j] == s;
                        assert(self.paths@[j].subrange(0, 0) =~= pv);
                        assert(self.matches_below(v as int, q@));
                    }
                    if self.matches_below(v as int, q@) {
                        let j = choose|j: int|
                            0 <= j < self.nodes@.len() && #[trigger] self.nodes@[j].is_terminal && is_prefix(
                                pv,
                                self.paths@[j],
                            ) && holds_all(self.paths@[j], q@);
                        assert(self@.contains(self.paths@[j]));
                    }
                }
            }
        }
        found
    }

    /// Whether some stored set holds every element of `items`; false when an
    /// element of `items` was never stored.
    pub fn exists_superset(&self, items: Vec<usize>) -> (r: bool)
        requires
            self.wf(),
        ensures
            r == (items@.to_set().subset_of(self.alphabet().dom()) && exists|s: Seq<usize>|
                #[trigger] self@.contains(s) && alphabet_indices(self.alphabet(), items@.to_set()).subset_of(
                    s.to_set(),
                )),
    {
        let mut tmp: Vec<usize> = Vec::new();
        let mut k: usize = 0;
        while k < items.len()
            invariant
                self.wf(),
                k <= items@.len(),
                items@.subrange(0, k as int).to_set().subset_of(self.alphabet().dom()),
                tmp@.to_set() == alphabet_indices(self.alphabet(), items@.subrange(0, k as int).to_set()),
            decreases items@.len() - k,
        {
            proof {
                crate::sorting::lemma_prefix_to_set_step(items@, k as int);
            }
            let x = items[k];
            match self.alphabet.get(&x) {
                None => {
                    proof {
                        assert(items@.to_set().contains(x));
                    }
                    return false;
                },
                Some(i) => {
                    let ghost before = tmp@;
                    tmp.push(*i);
                    proof {
                        crate::sorting::lemma_prefix_to_set_step(tmp@, before.len() as int);
                        assert(tmp@.subrange(0, before.len() as int) =~= before);
                        assert(tmp@.subrange(0, before.len() + 1int) =~= tmp@);
                        let a = self.alphabet();
                        let done = items@.subrange(0, k as int).to_set();
                        assert(tmp@.to_set() =~= alphabet_indices(a, done.insert(x))) by {
                            assert forall|w: usize| tmp@.to_set().contains(w)
                                implies alphabet_indices(a, done.insert(x)).contains(w) by {
                                if w != *i {
                                    assert(before.to_set().contains(w));
                                    let y = choose|y: usize| done.contains(y) && #[trigger] a[y] == w;
                                    assert(done.insert(x).contains(y));
                                } else {
                                    assert(a[x] == w);
                                    assert(done.insert(x).contains(x));
                                }
                            }
                            assert forall|w: usize| alphabet_indices(a, done.insert(x)).contains(w)
                                implies tmp@.to_set().contains(w) by {
                                let y = choose|y: usize| done.insert(x).contains(y) && #[trigger] a[y] == w;
                                if y != x {
                                    assert(alphabet_indices(a, done).contains(w));
                                }
                            }
                        }
                    }
                },
            }
            k += 1;
        }
        proof {
            assert(items@.subrange(0, items@.len() as int) =~= items@);
        }
        let q = sorted_distinct_indices(tmp);
        let ghost want = alphabet_indices(self.alphabet(), items@.to_set());
        proof {
            assert(q@.to_set() == want);
        }
        let r = self.exists_superset_helper(0, &q, 0);
        proof {
            if r {
                let j = choose|j: int|
                    0 <= j < self.nodes@.len() && #[trigger] self.nodes@[j].is_terminal && is_prefix(
                        self.paths@[0],
                        self.paths@[j],
                    ) && holds_all(self.paths@[j], q@);
                let s = self.paths@[j];
                assert(self@.contains(s));
                assert forall|w: usize| want.contains(w) implies s.to_set().contains(w) by {
                    assert(q@.to_set().contains(w));
                    let t = choose|t: int| 0 <= t < q@.len() && q@[t] == w;
                    assert(s.contains(q@[t]));
                }
            } else {
                if exists|s: Seq<usize>| #[trigger] self@.contains(s) && want.subset_of(s.to_set()) {
                    let s = choose|s: Seq<usize>| #[trigger] self@.contains(s) && want.subset_of(s.to_set());
                    let j = choose|j: int|
                        0 <= j < self.nodes@.len() && #[trigger] self.nodes@[j].is_terminal && self.paths@[j] == s;
                    assert(self.paths@[j].subrange(0, 0) =~= self.paths@[0]);
                    assert forall|t: int| 0 <= t < q@.len() implies s.contains(#[trigger] q@[t]) by {
                        assert(q@.to_set().contains(q@[t]));
                        assert(s.to_set().contains(q@[t]));
                    }
                    assert(self.matches_below(0, q@));
                }
            }
        }
        r
    }

    /// Stores the set of the elements of `items`: the elements not seen before
    /// are numbered first, in their order in `items`.
    pub fn insert(&mut self, items: Vec<usize>)
        requires
            old(self).wf(),
            old(self).alphabet().len() + items@.len() < usize::MAX,
        ensures
            final(self).wf(),
            final(self).alphabet().dom() == old(self).alphabet().dom().union(items@.to_set()),
            forall|x: usize| #[trigger] old(self).alphabet().contains_key(x) ==> final(self).alphabet()[x] == old(self).alphabet()[x],
            forall|t: int|
                0 <= t < fresh_in_order(old(self).alphabet().dom(), items@).len() ==> final(self).alphabet()[
                    #[trigger] fresh_in_order(old(self).alphabet().dom(), items@)[t]] == old(self).alphabet().len() + 1 + t,
            forall|s: Seq<usize>|
                #[trigger] final(self)@.contains(s) <==> old(self)@.contains(s) || (strictly_ascending_indices(s)
                    && s.to_set() == alphabet_indices(final(self).alphabet(), items@.to_set())),
    {
        let ghost t0 = *self;
        let mut iter = Self::get_alpha_iterator(&mut self.alphabet, items);
        proof {
            assert(iter.items().subrange(0, 0) =~= Seq::<usize>::empty());
            assert(self.nodes == t0.nodes && self.paths == t0.paths);
        }
        let ghost path = iter.items();
        self.insert_helper(0, &mut iter);
        proof {
            assert(self@.contains(path));
            let e = choose|e: int|
                0 <= e < self.nodes@.len() && #[trigger] self.nodes@[e].is_terminal && self.paths@[e] == path;
            assert forall|v: int| 0 < v < self.nodes@.len() implies #[trigger] self.terminal_below(v) by {
                let nv = self.nodes@[v];
                if v < t0.nodes@.len() {
                    assert(t0.terminal_below(v));
                    let j = choose|j: int|
                        0 <= j < t0.nodes@.len() && #[trigger] t0.nodes@[j].is_terminal && is_prefix(
                            t0.paths@[v],
                            t0.paths@[j],
                        );
                    let nj = self.nodes@[j];
                    assert(nj.is_terminal);
                    assert(self.paths@[j] == t0.paths@[j]);
                    assert(self.paths@[v] == t0.paths@[v]);
                } else {
                    assert(is_prefix(self.paths@[v], path));
                    assert(self.nodes@[e].is_terminal);
                }
            }
            assert forall|s: Seq<usize>|
                strictly_ascending_indices(s) && s.to_set() == path.to_set() implies s == path by {
                lemma_ascending_unique(s, path);
            }
        }
    }
}

/// Each prefix of a node's path is the path of some node.
proof fn lemma_ancestor(t: SetTrie, j: int, d: int)
    requires
        t.shape(),
        0 <= j < t.nodes@.len(),
        0 <= d <= t.paths@[j].len(),
    ensures
        exists|a: int| 0 <= a < t.nodes@.len() && #[trigger] t.paths@[a] == t.paths@[j].subrange(0, d),
    decreases j,
{
    if d == t.paths@[j].len() {
        assert(t.paths@[j].subrange(0, d) =~= t.paths@[j]);
    } else {
        assert(j != 0);
        let q = t.parents@[j];
        assert(has_child(t.nodes@[q], j));
        let k = choose|k: int|
            0 <= k < t.nodes@[q].children@.len() && #[trigger] t.nodes@[q].children@[k] as int == j;
        assert(t.paths@[j] == t.paths@[q].push(t.nodes@[j].label));
        lemma_ancestor(t, q, d);
        assert(t.paths@[q].subrange(0, d) =~= t.paths@[j].subrange(0, d));
    }
}

/// A node whose path strictly extends that of `v` lies below a child of `v`.
proof fn lemma_child_on_path(t: SetTrie, v: int, j: int)
    requires
        t.shape(),
        0 <= v < t.nodes@.len(),
        0 <= j < t.nodes@.len(),
        is_prefix(t.paths@[v], t.paths@[j]),
        t.paths@[v].len() < t.paths@[j].len(),
    ensures
        exists|m: int|
            0 <= m < t.nodes@[v].children@.len() && is_prefix(
                t.paths@[#[trigger] t.nodes@[v].children@[m] as int],
                t.paths@[j],
            ),
{
    let pv = t.paths@[v];
    let pj = t.paths@[j];
    let d: int = pv.len() + 1int;
    lemma_ancestor(t, j, d);
    let a = choose|a: int| 0 <= a < t.nodes@.len() && #[trigger] t.paths@[a] == pj.subrange(0, d);
    assert(a != 0) by {
        if a == 0 {
            assert(t.paths@[0].len() == 0);
        }
    }
    let q = t.parents@[a];
    assert(has_child(t.nodes@[q], a));
    let k = choose|k: int|
        0 <= k < t.nodes@[q].children@.len() && #[trigger] t.nodes@[q].children@[k] as int == a;
    assert(t.paths@[a] == t.paths@[q].push(t.nodes@[a].label));
    assert(t.paths@[q] =~= t.paths@[a].drop_last());
    assert(pj.subrange(0, d).drop_last() =~= pv);
    assert(q == v);
    assert(pj.subrange(0, t.paths@[a].len() as int) == t.paths@[a]);
    assert(is_prefix(t.paths@[t.nodes@[v].children@[k] as int], pj));
}

/// In a well-formed trie, when no child of `cur` carries `label`, no node's
/// path is `cur`'s path followed by `label`.
proof fn lemma_no_other_path(t: SetTrie, cur: int, label: usize, i: int)
    requires
        t.shape(),
        0 <= cur < t.nodes@.len(),
        0 <= i < t.nodes@.len(),
        forall|k: int|
            0 <= k < t.nodes@[cur].children@.len() ==> t.nodes@[#[trigger] t.nodes@[cur].children@[k] as int].label != label,
    ensures
        t.paths@[i] != t.paths@[cur].push(label),
{
    if t.paths@[i] == t.paths@[cur].push(label) {
        if i == 0 {
            assert(t.paths@[0].len() == 0);
        } else {
            let q = t.parents@[i];
            assert(has_child(t.nodes@[q], i));
            let k = choose|k: int|
                0 <= k < t.nodes@[q].children@.len() && #[trigger] t.nodes@[q].children@[k] as int == i;
            assert(t.paths@[i] == t.paths@[q].push(t.nodes@[i].label));
            assert(t.paths@[q] =~= t.paths@[i].drop_last());
            assert(t.paths@[cur] =~= t.paths@[i].drop_last());
            assert(q == cur);
            assert(t.paths@[i].last() == label);
            assert(t.nodes@[i].label == label);
            assert(t.nodes@[t.nodes@[cur].children@[k] as int].label != label);
        }
    }
}

/// Two strictly ascending sequences with the same elements are equal.
proof fn lemma_ascending_unique(s: Seq<usize>, t: Seq<usize>)
    requires
        strictly_ascending_indices(s),
        strictly_ascending_indices(t),
        s.to_set() == t.to_set(),
    ensures
        s == t,
    decreases s.len(),
{
    if s.len() == 0 {
        if t.len() > 0 {
            assert(t.to_set().contains(t[0]));
        }
        assert(t =~= s);
    } else if t.len() == 0 {
        assert(s.to_set().contains(s[0]));
    } else {
        assert(s.to_set().contains(s[0]) && t.to_set().contains(t[0]));
        let i = choose|i: int| 0 <= i < t.len() && t[i] == s[0];
        let j = choose|j: int| 0 <= j < s.len() && s[j] == t[0];
        if i > 0 {
            assert(t[0] < t[i]);
            if j > 0 {
                assert(s[0] < s[j]);
            }
        }
        if j > 0 {
            assert(s[0] < s[j]);
        }
        assert(s[0] == t[0]);
        let s1 = s.subrange(1, s.len() as int);
        let t1 = t.subrange(1, t.len() as int);
        assert forall|x: usize| s1.to_set().contains(x) <==> t1.to_set().contains(x) by {
            if s1.to_set().contains(x) {
                let a = choose|a: int| 0 <= a < s1.len() && s1[a] == x;
                assert(s[a + 1] == x);
                assert(s[0] < s[a + 1]);
                assert(s.to_set().contains(x));
                let b = choose|b: int| 0 <= b < t.len() && t[b] == x;
                assert(b != 0);
                assert(t1[b - 1] == x);
            }
            if t1.to_set().contains(x) {
                let a = choose|a: int| 0 <= a < t1.len() && t1[a] == x;
                assert(t[a + 1] == x);
                assert(t[0] < t[a + 1]);
                assert(t.to_set().contains(x));
                let b = choose|b: int| 0 <= b < s.len() && s[b] == x;
                assert(b != 0);
                assert(s1[b - 1] == x);
            }
        }
        assert(s1.to_set() =~= t1.to_set());
        lemma_ascending_unique(s1, t1);
        assert(s.len() == t.len());
        assert forall|k: int| 0 <= k < s.len() implies s[k] == t[k] by {
            if k > 0 {
                assert(s[k] == s1[k - 1]);
                assert(t[k] == t1[k - 1]);
            }
        }
        assert(s =~= t);
    }
}

} // verus!
