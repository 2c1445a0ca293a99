use std::collections::HashMap;
use vstd::prelude::*;

use crate::corpus::{KnownLength, SubsetTest};
use crate::sorting::{sorted_distinct, strictly_ascending};

verus! {

broadcast use vstd::std_specs::hash::group_hash_axioms;

/// Bit `j` of the word `w` is set.
pub open spec fn word_bit(w: u64, j: u64) -> bool {
    (w >> j) & 1u64 == 1u64
}

/// Element `i` is marked in a sequence of 64-bit lanes (lane `i / 64`, bit `i % 64`).
pub open spec fn lanes_bit(lanes: Seq<u64>, i: nat) -> bool {
    i < 64 * lanes.len() && word_bit(lanes[(i / 64) as int], (i % 64) as u64)
}

proof fn lemma_word_bit_or(w: u64, b: u64, j: u64)
    requires
        b < 64,
        j < 64,
    ensures
        word_bit(w | (1u64 << b), j) == (j == b || word_bit(w, j)),
{
    assert(((w | (1u64 << b)) >> j) & 1u64 == 1u64 <==> (j == b || (w >> j) & 1u64 == 1u64))
        by (bit_vector)
        requires
            b < 64,
            j < 64,
    ;
}

/// A nonzero word has a set bit at or above `j` when its shift by `j` is nonzero.
proof fn lemma_some_bit(x: u64, j: u64)
    requires
        j < 64,
        x >> j != 0,
    ensures
        exists|k: u64| j <= k < 64 && #[trigger] word_bit(x, k),
    decreases 64 - j,
{
    if (x >> j) & 1u64 == 1u64 {
        assert(word_bit(x, j));
    } else if j == 63 {
        assert(x >> j != 0 && j == 63 ==> (x >> j) & 1u64 == 1u64) by (bit_vector);
    } else {
        assert((x >> j) != 0 && (x >> j) & 1u64 != 1u64 && j < 63 ==> x >> ((j + 1) as u64) != 0)
            by (bit_vector);
        lemma_some_bit(x, (j + 1) as u64);
    }
}

/// `a & b == a` exactly when every bit set in `a` is set in `b`.
proof fn lemma_and_covers(a: u64, b: u64)
    ensures
        (a & b == a) <==> (forall|j: u64| j < 64 && #[trigger] word_bit(a, j) ==> word_bit(b, j)),
{
    if a & b == a {
        assert forall|j: u64| j < 64 && #[trigger] word_bit(a, j) implies word_bit(b, j) by {
            assert(a & b == a && (a >> j) & 1u64 == 1u64 ==> (b >> j) & 1u64 == 1u64) by (bit_vector);
        }
    } else {
        let x = a & !b;
        assert(a & b != a ==> (a & !b) >> 0u64 != 0) by (bit_vector);
        lemma_some_bit(x, 0);
        let k = choose|k: u64| 0 <= k < 64 && #[trigger] word_bit(x, k);
        assert(x == a & !b && (x >> k) & 1u64 == 1u64 ==> (a >> k) & 1u64 == 1u64 && (b >> k)
            & 1u64 != 1u64) by (bit_vector);
        assert(word_bit(a, k) && !word_bit(b, k));
    }
}

/// A set of non-negative integers stored as bit flags, in blocks of 256 bits
/// laid out as four 64-bit lanes.
pub struct Bitset {
    lanes: Vec<u64>,
    size: usize,
    elems: Ghost<Set<nat>>,
}

impl Bitset {
    /// The elements of the set.
    pub closed spec fn view(&self) -> Set<nat> {
        self.elems@
    }

    /// Number of 256-bit blocks in use.
    pub closed spec fn blocks(&self) -> nat {
        self.lanes@.len() / 4
    }

    /// The set is finite and the blocks in use are the fewest that cover it.
    pub open spec fn tight(&self) -> bool {
        &&& self@.finite()
        &&& forall|i: nat| #[trigger] self@.contains(i) ==> i < 256 * self.blocks()
        &&& self.blocks() > 0 ==> exists|i: nat|
            #[trigger] self@.contains(i) && i >= 256 * (self.blocks() - 1)
    }

    proof fn lemma_wf_tight(&self)
        requires
            self.wf(),
        ensures
            self.tight(),
    {
        let n = self.lanes@.len();
        assert(n == 4 * (n / 4));
        if n > 0 {
            let i = choose|i: nat| #[trigger] self.elems@.contains(i) && i >= 64 * (n - 4);
            assert(self@.contains(i));
        }
    }

    pub closed spec fn wf(&self) -> bool {
        &&& self.lanes@.len() % 4 == 0
        &&& forall|i: nat| #[trigger] self.elems@.contains(i) <==> lanes_bit(self.lanes@, i)
        &&& self.elems@.finite()
        &&& self.size == self.elems@.len()
        &&& self.lanes@.len() > 0 ==> exists|i: nat|
            #[trigger] self.elems@.contains(i) && i >= 64 * (self.lanes@.len() - 4)
    }

    /// The empty set.
    pub fn new() -> (r: Self)
        ensures
            r.wf(),
            r.tight(),
            r@ == Set::<nat>::empty(),
            r.blocks() == 0,
    {
        let r = Bitset { lanes: Vec::new(), size: 0, elems: Ghost(Set::empty()) };
        assert forall|i: nat| #[trigger] r.elems@.contains(i) <==> lanes_bit(r.lanes@, i) by {}
        proof {
            r.lemma_wf_tight();
        }
        r
    }

    /// Adds `num` to the set, growing the block storage to cover it.
    pub fn mark(&mut self, num: usize)
        requires
            old(self).wf(),
            old(self)@.len() < usize::MAX,
        ensures
            final(self).wf(),
            final(self).tight(),
            final(self)@ == old(self)@.insert(num as nat),
            final(self).blocks() == if old(self).blocks() > num as nat / 256 {
                old(self).blocks()
            } else {
                num as nat / 256 + 1
            },
    {
        let partition: usize = num / 256;
        let lane: usize = num / 64;
        let bit: u64 = (num % 64) as u64;
        let ghost old_lanes = self.lanes@;
        let ghost old_elems = self.elems@;
        let ghost old_size = self.size;
        while self.lanes.len() <= 4 * partition
            invariant
                self.elems@ == old_elems,
                self.size == old_size,
                old_size == old_elems.len(),
                old_elems.finite(),
                forall|i: nat| #[trigger] old_elems.contains(i) <==> lanes_bit(old_lanes, i),
                old_lanes.len() > 0 ==> exists|i: nat|
                    #[trigger] old_elems.contains(i) && i >= 64 * (old_lanes.len() - 4),
                old_elems.len() < usize::MAX,
                lane == num / 64,
                bit == num % 64,
                self.lanes@.len() % 4 == 0,
                old_lanes.len() <= self.lanes@.len(),
                self.lanes@.len() <= if old_lanes.len() > 4 * partition {
                    old_lanes.len() as int
                } else {
                    4 * partition + 4
                },
                forall|k: int| 0 <= k < old_lanes.len() ==> self.lanes@[k] == old_lanes[k],
                forall|k: int| old_lanes.len() <= k < self.lanes@.len() ==> self.lanes@[k] == 0,
                partition == num / 256,
            decreases 4 * partition + 4 - self.lanes@.len(),
        {
            self.lanes.push(0);
            self.lanes.push(0);
            self.lanes.push(0);
            self.lanes.push(0);
        }
        assert(lane < self.lanes@.len());
        let ghost mid_lanes = self.lanes@;
        proof {
            assert forall|i: nat| lanes_bit(mid_lanes, i) <==> lanes_bit(old_lanes, i) by {
                if i < 64 * mid_lanes.len() && i >= 64 * old_lanes.len() {
                    assert(mid_lanes[(i / 64) as int] == 0);
                    let j = (i % 64) as u64;
                    assert((0u64 >> j) & 1u64 == 0u64) by (bit_vector);
                }
            }
        }
        let w = self.lanes[lane];
        if (w >> bit) & 1u64 == 1u64 {
            proof {
                assert(lanes_bit(mid_lanes, num as nat));
                assert(self.elems@.insert(num as nat) =~= self.elems@);
                assert forall|i: nat| #[trigger] self.elems@.contains(i) <==> lanes_bit(self.lanes@, i) by {
                    assert(lanes_bit(mid_lanes, i) <==> lanes_bit(old_lanes, i));
                }
                if old_lanes.len() == 0 {
                    assert(self.elems@.contains(num as nat));
                }
            }
        } else {
            let nw: u64 = w | (1u64 << bit);
            self.lanes[lane] = nw;
            proof {
                assert(!self.elems@.contains(num as nat));
                let ns = self.elems@.insert(num as nat);
                assert forall|i: nat| #[trigger] ns.contains(i) <==> lanes_bit(self.lanes@, i) by {
                    if i < 64 * self.lanes@.len() {
                        lemma_word_bit_or(w, bit, (i % 64) as u64);
                        if i / 64 != lane as nat {
                            assert(self.lanes@[(i / 64) as int] == mid_lanes[(i / 64) as int]);
                        }
                    }
                }
                self.elems@ = ns;
                assert(ns.contains(num as nat));
            }
            self.size = self.size + 1;
        }
        proof {
            if old_lanes.len() > 4 * partition {
                let w = choose|i: nat| #[trigger] old_elems.contains(i) && i >= 64 * (old_lanes.len() - 4);
                assert(self.elems@.contains(w));
            } else {
                assert(256 * partition <= num) by (nonlinear_arith)
                    requires
                        partition == num / 256,
                ;
                assert(self.elems@.contains(num as nat));
            }
            self.lemma_wf_tight();
        }
    }

    /// The block storage as 64-bit lanes, four per block.
    pub fn lane_words(&self) -> (r: Vec<u64>)
        requires
            self.wf(),
        ensures
            r@.len() == 4 * self.blocks(),
            forall|i: nat| #[trigger] lanes_bit(r@, i) == self@.contains(i),
    {
        let mut r: Vec<u64> = Vec::new();
        let mut k: usize = 0;
        while k < self.lanes.len()
            invariant
                k <= self.lanes@.len(),
                r@ == self.lanes@.subrange(0, k as int),
            decreases self.lanes@.len() - k,
        {
            r.push(self.lanes[k]);
            k += 1;
        }
        assert(r@ =~= self.lanes@);
        r
    }

    /// Whether every element of `self` is also an element of `other`.
    pub fn is_subset(&self, other: &Bitset) -> (r: bool)
        requires
            self.wf(),
            other.wf(),
        ensures
            r == self@.subset_of(other@),
    {
        if other.size < self.size || other.lanes.len() < self.lanes.len() {
            proof {
                if other.size < self.size {
                    if self@.subset_of(other@) {
                        vstd::set_lib::lemma_len_subset(self@, other@);
                    }
                } else {
                    let i = choose|i: nat|
                        #[trigger] self.elems@.contains(i) && i >= 64 * (self.lanes@.len() - 4);
                    assert(!other@.contains(i));
                }
            }
            return false;
        }
        let mut i: usize = 0;
        while i < self.lanes.len()
            invariant
                self.wf(),
                other.wf(),
                0 <= i <= self.lanes@.len(),
                self.lanes@.len() <= other.lanes@.len(),
                forall|k: int| 0 <= k < i ==> #[trigger] self.lanes@[k] & other.lanes@[k]
                    == self.lanes@[k],
            decreases self.lanes@.len() - i,
        {
            let a = self.lanes[i];
            let b = other.lanes[i];
            if a & b != a {
                proof {
                    lemma_and_covers(a, b);
                    let j = choose|j: u64| j < 64 && #[trigger] word_bit(a, j) && !word_bit(b, j);
                    let e: nat = (64 * i + j) as nat;
                    let ii = i as nat;
                    let jj = j as nat;
                    assert(e / 64 == ii && e % 64 == jj) by (nonlinear_arith)
                        requires
                            e == 64 * ii + jj,
                            jj < 64,
                    ;
                    assert(e < 64 * self.lanes@.len());
                    assert(lanes_bit(self.lanes@, e));
                    assert(self@.contains(e));
                    assert(!other@.contains(e));
                }
                return false;
            }
            i += 1;
        }
        proof {
            assert forall|e: nat| self@.contains(e) implies other@.contains(e) by {
                assert(lanes_bit(self.lanes@, e));
                let k = (e / 64) as int;
                let a = self.lanes@[k];
                let b = other.lanes@[k];
                assert(a & b == a);
                lemma_and_covers(a, b);
                assert(word_bit(a, (e % 64) as u64));
                assert(lanes_bit(other.lanes@, e));
            }
        }
        true
    }
}

impl KnownLength for Bitset {
    open spec fn spec_len(&self) -> nat {
        self@.len()
    }

    open spec fn valid(&self) -> bool {
        self.wf()
    }

    /// Number of distinct elements.
    fn len(&self) -> (r: usize) {
        self.size
    }
}

impl SubsetTest for Bitset {
    open spec fn subset_spec(&self, other: &Self) -> bool {
        self@.subset_of(other@)
    }

    fn is_subset(&self, other: &Self) -> (r: bool) {
        Bitset::is_subset(self, other)
    }
}

/// The indices that `dict` gives to the elements of `raw`.
pub open spec fn indices_of(dict: Map<u32, usize>, raw: Set<u32>) -> Set<nat> {
    Set::new(|i: nat| exists|x: u32| raw.contains(x) && #[trigger] dict[x] as nat == i)
}

/// `dict` gives each of its keys a distinct index below its size.
pub open spec fn dense_index(dict: Map<u32, usize>) -> bool {
    &&& dict.dom().finite()
    &&& forall|x: u32| #[trigger] dict.contains_key(x) ==> (dict[x] as nat) < dict.len()
    &&& forall|x: u32, y: u32|
        #[trigger] dict.contains_key(x) && #[trigger] dict.contains_key(y) && dict[x] == dict[y]
            ==> x == y
}

/// What one `add` of `raw` does to the index mapping `before`, giving `after`:
/// earlier indices are kept, each new element gets the next free index in
/// ascending element order.
pub open spec fn extends_index(before: Map<u32, usize>, raw: Set<u32>, after: Map<u32, usize>) -> bool {
    &&& after.dom() == before.dom().union(raw)
    &&& forall|x: u32| #[trigger] before.contains_key(x) ==> after[x] == before[x]
    &&& forall|x: u32| after.contains_key(x) && !before.contains_key(x) ==> #[trigger] after[x]
        >= before.len()
    &&& forall|x: u32, y: u32|
        #![trigger after[x], after[y]]
        after.contains_key(x) && !before.contains_key(x) && after.contains_key(y)
            && !before.contains_key(y) && x < y ==> after[x] < after[y]
}

/// Builds bitsets over one shared index: each distinct element seen gets the
/// next free bit position, for good.
pub struct BitsetBuilder {
    dict: HashMap<u32, usize>,
}

impl BitsetBuilder {
    /// The element-to-index mapping built so far.
    pub closed spec fn view(&self) -> Map<u32, usize> {
        self.dict@
    }

    pub open spec fn wf(&self) -> bool {
        dense_index(self@)
    }

    /// A builder that has seen no element.
    pub fn new() -> (r: Self)
        ensures
            r.wf(),
            r@ == Map::<u32, usize>::empty(),
    {
        BitsetBuilder { dict: HashMap::new() }
    }

    /// The bitset of the distinct elements of `to_add`, assigning fresh
    /// indices to the elements not seen before.
    pub fn add(&mut self, to_add: Vec<u32>) -> (r: Bitset)
        requires
            old(self).wf(),
        ensures
            final(self).wf(),
            extends_index(old(self)@, to_add@.to_set(), final(self)@),
            r.wf(),
            r.tight(),
            r@ == indices_of(final(self)@, to_add@.to_set()),
    {
        let ghost raw = to_add@.to_set();
        let ghost d0 = self.dict@;
        let items = sorted_distinct(to_add);
        let mut set = Bitset::new();
        proof {
            assert(items@.subrange(0, 0).to_set() =~= Set::<u32>::empty());
            assert(d0.dom().union(Set::<u32>::empty()) =~= d0.dom());
            assert(set@ =~= indices_of(self.dict@, Set::<u32>::empty()));
        }
        let mut k: usize = 0;
        while k < items.len()
            invariant
                0 <= k <= items@.len(),
                strictly_ascending(items@),
                items@.to_set() == raw,
                dense_index(self.dict@),
                set.wf(),
                set@.len() == k,
                extends_index(d0, items@.subrange(0, k as int).to_set(), self.dict@),
                set@ == indices_of(self.dict@, items@.subrange(0, k as int).to_set()),
                forall|x: u32| #[trigger] self.dict@.contains_key(x) && !d0.contains_key(x)
                    ==> items@.subrange(0, k as int).contains(x),
            decreases items@.len() - k,
        {
            let x = items[k];
            let ghost d_before = self.dict@;
            let ghost done = items@.subrange(0, k as int).to_set();
            assert(!done.contains(x)) by {
                if done.contains(x) {
                    let m = choose|m: int| 0 <= m < k && items@[m] == x;
                    assert(items@[m] < items@[k as int]);
                }
            }
            let idx: usize = match self.dict.get(&x) {
                Some(v) => *v,
                None => {
                    let l = self.dict.len();
                    self.dict.insert(x, l);
                    l
                },
            };
            proof {
                let d = self.dict@;
                assert(d.contains_key(x) && d[x] == idx);
                assert(d_before.contains_key(x) ==> d_before =~= d);
                if !d_before.contains_key(x) {
                    assert(d.dom() =~= d_before.dom().insert(x));
                    assert(d.len() == d_before.len() + 1);
                }
                assert(!set@.contains(idx as nat)) by {
                    if set@.contains(idx as nat) {
                        let y = choose|y: u32| done.contains(y) && #[trigger] d_before[y] as nat
                            == idx as nat;
                        assert(d_before.contains_key(y));
                    }
                }
                crate::sorting::lemma_prefix_to_set_step(items@, k as int);
                assert(items@.subrange(0, k + 1) =~= items@.subrange(0, k as int).push(x));
            }
            set.mark(idx);
            proof {
                let d = self.dict@;
                let done1 = done.insert(x);
                assert(d.dom() =~= d0.dom().union(done1));
                assert forall|y: u32| #[trigger] d0.contains_key(y) implies d[y] == d0[y] by {
                    assert(d_before.contains_key(y));
                }
                assert(d0.dom().subset_of(d_before.dom()));
                vstd::set_lib::lemma_len_subset(d0.dom(), d_before.dom());
                assert forall|y: u32| d.contains_key(y) && !d0.contains_key(y) implies #[trigger] d[y]
                    >= d0.len() by {
                    if y != x {
                        assert(d_before.contains_key(y));
                    }
                }
                assert forall|y: u32, z: u32|
                    #![trigger d[y], d[z]]
                    d.contains_key(y) && !d0.contains_key(y) && d.contains_key(z) && !d0.contains_key(z)
                        && y < z implies d[y] < d[z] by {
                    if y != x && z != x {
                        assert(d_before.contains_key(y) && d_before.contains_key(z));
                    } else if z == x {
                        assert(d_before.contains_key(y));
                        assert(!d_before.contains_key(x));
                    } else {
                        assert(d_before.contains_key(z));
                        assert(items@.subrange(0, k as int).contains(z));
                        let m = choose|m: int| 0 <= m < k && items@.subrange(0, k as int)[m] == z;
                        assert(items@[m] < items@[k as int]);
                    }
                }
                assert forall|y: u32| #[trigger] d.contains_key(y) && !d0.contains_key(y)
                    implies items@.subrange(0, k + 1).contains(y) by {
                    if y != x {
                        assert(done.contains(y));
                    }
                    assert(done1.contains(y));
                }
                assert(set@ =~= indices_of(d, done1)) by {
                    assert forall|i: nat| set@.contains(i) implies indices_of(d, done1).contains(i) by {
                        if i != idx as nat {
                            let y = choose|y: u32| done.contains(y) && #[trigger] d_before[y] as nat == i;
                            assert(d_before.contains_key(y));
                            assert(d[y] == d_before[y]);
                        }
                    }
                    assert forall|i: nat| indices_of(d, done1).contains(i) implies set@.contains(i) by {
                        let y = choose|y: u32| done1.contains(y) && #[trigger] d[y] as nat == i;
                        if y != x {
                            assert(d_before.contains_key(y));
                            assert(d[y] == d_before[y]);
                            assert(indices_of(d_before, done).contains(i));
                        }
                    }
                }
            }
            k += 1;
        }
        proof {
            assert(items@.subrange(0, items@.len() as int) =~= items@);
            set.lemma_wf_tight();
        }
        set
    }
}

/// Adding the same raw elements twice in a row through one builder gives the
/// same set both times: each is a subset of the other.
pub proof fn lemma_rebuild_same_set(
    d0: Map<u32, usize>,
    raw: Set<u32>,
    d1: Map<u32, usize>,
    s1: Set<nat>,
    d2: Map<u32, usize>,
    s2: Set<nat>,
)
    requires
        extends_index(d0, raw, d1),
        s1 == indices_of(d1, raw),
        extends_index(d1, raw, d2),
        s2 == indices_of(d2, raw),
    ensures
        s1.subset_of(s2),
        s2.subset_of(s1),
{
    assert forall|x: u32| raw.contains(x) implies d2[x] == d1[x] by {
        assert(d1.contains_key(x));
    }
    assert forall|i: nat| s1.contains(i) implies s2.contains(i) by {
        let x = choose|x: u32| raw.contains(x) && #[trigger] d1[x] as nat == i;
        assert(d2[x] as nat == i);
    }
    assert forall|i: nat| s2.contains(i) implies s1.contains(i) by {
        let x = choose|x: u32| raw.contains(x) && #[trigger] d2[x] as nat == i;
        assert(d1[x] as nat == i);
    }
}

/// A dense index gives distinct elements distinct indices, so the indices of a
/// finite set of known elements are as many as the elements.
pub proof fn lemma_indices_len(dict: Map<u32, usize>, raw: Set<u32>)
    requires
        dense_index(dict),
        raw.finite(),
        raw.subset_of(dict.dom()),
    ensures
        indices_of(dict, raw).finite(),
        indices_of(dict, raw).len() == raw.len(),
{
    let f = |x: u32| dict[x] as nat;
    assert(raw.map(f) =~= indices_of(dict, raw)) by {
        assert forall|i: nat| indices_of(dict, raw).contains(i) implies raw.map(f).contains(i) by {
            let x = choose|x: u32| raw.contains(x) && #[trigger] dict[x] as nat == i;
            assert(f(x) == i);
        }
    }
    assert(vstd::relations::injective_on(f, raw)) by {
        assert forall|x: u32, y: u32| raw.contains(x) && raw.contains(y) && #[trigger] f(x) == #[trigger] f(y)
            implies x == y by {
            assert(dict.contains_key(x) && dict.contains_key(y));
        }
    }
    vstd::set_lib::lemma_map_size(raw, indices_of(dict, raw), f);
}

/// Tight bitsets of the same set use the same number of blocks, so their lane
/// words are equal.
pub proof fn lemma_tight_same_blocks(a: Bitset, b: Bitset)
    requires
        a.tight(),
        b.tight(),
        a@ == b@,
    ensures
        a.blocks() == b.blocks(),
{
    if a.blocks() < b.blocks() {
        let i = choose|i: nat| #[trigger] b@.contains(i) && i >= 256 * (b.blocks() - 1);
        assert(a@.contains(i));
    } else if b.blocks() < a.blocks() {
        let i = choose|i: nat| #[trigger] a@.contains(i) && i >= 256 * (a.blocks() - 1);
        assert(b@.contains(i));
    }
}

} // verus!
