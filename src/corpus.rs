use std::collections::HashSet;
use vstd::prelude::*;

verus! {

broadcast use vstd::std_specs::hash::group_hash_axioms;

/// A set value whose number of distinct elements is known.
pub trait KnownLength {
    /// Number of elements: for a set representation, its distinct elements;
    /// for a plain vector, its entries, repeats included.
    spec fn spec_len(&self) -> nat;

    /// The value is well formed.
    spec fn valid(&self) -> bool;

    fn len(&self) -> (r: usize)
        requires
            self.valid(),
        ensures
            r as nat == self.spec_len(),
    ;
}

/// A set representation with a subset test.
pub trait SubsetTest: KnownLength {
    /// What the representation's subset test decides.
    spec fn subset_spec(&self, other: &Self) -> bool;

    fn is_subset(&self, other: &Self) -> (r: bool)
        requires
            self.valid(),
            other.valid(),
        ensures
            r == self.subset_spec(other),
    ;
}

impl<T> KnownLength for Vec<T> {
    open spec fn spec_len(&self) -> nat {
        self@.len()
    }

    open spec fn valid(&self) -> bool {
        true
    }

    fn len(&self) -> (r: usize) {
        self.len()
    }
}

impl<T> KnownLength for HashSet<T> {
    open spec fn spec_len(&self) -> nat {
        self@.len()
    }

    open spec fn valid(&self) -> bool {
        vstd::std_specs::hash::obeys_key_model::<T>()
    }

    fn len(&self) -> (r: usize) {
        self.len()
    }
}

/// Relies on `HashSet::is_subset`: true iff every element of `a` is in `b`.
#[verifier::external_body]
fn hash_set_is_subset(a: &HashSet<u32>, b: &HashSet<u32>) -> (r: bool)
    ensures
        r == a@.subset_of(b@),
{
    a.is_subset(b)
}

impl SubsetTest for HashSet<u32> {
    open spec fn subset_spec(&self, other: &Self) -> bool {
        self@.subset_of(other@)
    }

    fn is_subset(&self, other: &Self) -> (r: bool) {
        hash_set_is_subset(self, other)
    }
}

/// The hash-based representation of the distinct elements of `raw`.
pub fn hash_set_of(raw: &Vec<u32>) -> (r: HashSet<u32>)
    ensures
        r@ == raw@.to_set(),
{
    let mut r: HashSet<u32> = HashSet::new();
    let mut i: usize = 0;
    while i < raw.len()
        invariant
            0 <= i <= raw@.len(),
            r@ == raw@.subrange(0, i as int).to_set(),
        decreases raw@.len() - i,
    {
        r.insert(raw[i]);
        proof {
            crate::sorting::lemma_prefix_to_set_step(raw@, i as int);
            assert(r@ =~= raw@.subrange(0, i + 1).to_set());
        }
        i += 1;
    }
    proof {
        assert(raw@.subrange(0, raw@.len() as int) =~= raw@);
    }
    r
}

/// A place in a corpus: (bucket, index within the bucket).
pub type Position = (usize, usize);

/// `p` comes before `q`: by bucket, then by index within the bucket.
pub open spec fn pos_lt(p: Position, q: Position) -> bool {
    p.0 < q.0 || (p.0 == q.0 && p.1 < q.1)
}

/// The positions in `r` are strictly ascending.
pub open spec fn ascending_positions(r: Seq<Position>) -> bool {
    forall|k: int, l: int| 0 <= k < l < r.len() ==> pos_lt(r[k], r[l])
}

/// The number of sets in all buckets together.
pub open spec fn total<T>(buckets: Seq<Seq<T>>) -> nat
    decreases buckets.len(),
{
    if buckets.len() == 0 {
        0
    } else {
        total(buckets.drop_last()) + buckets.last().len()
    }
}

proof fn lemma_total_update<T>(b: Seq<Seq<T>>, i: int, x: T)
    requires
        0 <= i < b.len(),
    ensures
        total(b.update(i, b[i].push(x))) == total(b) + 1,
    decreases b.len(),
{
    let u = b.update(i, b[i].push(x));
    if i == b.len() - 1 {
        assert(u.drop_last() =~= b.drop_last());
    } else {
        lemma_total_update(b.drop_last(), i, x);
        assert(u.drop_last() =~= b.drop_last().update(i, b[i].push(x)));
    }
}

/// Sets stored in buckets by length: bucket `b` holds the sets of length `b + 1`,
/// each in insertion order.
pub struct Corpus<T: KnownLength> {
    data: Vec<Vec<T>>,
}

impl<T: KnownLength> Corpus<T> {
    /// The buckets.
    pub closed spec fn view(&self) -> Seq<Seq<T>> {
        self.data@.map_values(|b: Vec<T>| b@)
    }

    /// `p` names a set in the corpus.
    pub open spec fn has(&self, p: Position) -> bool {
        p.0 < self@.len() && p.1 < self@[p.0 as int].len()
    }

    /// The set at `p`.
    pub open spec fn at(&self, p: Position) -> T {
        self@[p.0 as int][p.1 as int]
    }

    /// The number of sets in the corpus.
    pub open spec fn size(&self) -> nat {
        total(self@)
    }

    /// Every set is well formed and sits in the bucket of its length.
    pub open spec fn wf(&self) -> bool {
        forall|p: Position| #[trigger] self.has(p) ==> self.at(p).valid() && self.at(p).spec_len()
            == p.0 + 1
    }

    /// An empty corpus.
    pub fn new() -> (r: Self)
        ensures
            r.wf(),
            r@ == Seq::<Seq<T>>::empty(),
            r.size() == 0,
    {
        let r = Corpus { data: Vec::new() };
        assert(r@ =~= Seq::<Seq<T>>::empty());
        r
    }

    /// Appends `item` to the bucket of its length, adding empty buckets as needed.
    pub fn add(&mut self, item: T)
        requires
            old(self).wf(),
            item.valid(),
            item.spec_len() >= 1,
        ensures
            final(self).wf(),
            final(self).size() == old(self).size() + 1,
            final(self)@.len() == if old(self)@.len() >= item.spec_len() {
                old(self)@.len()
            } else {
                item.spec_len()
            },
            forall|b: int|
                #![trigger final(self)@[b]]
                0 <= b < final(self)@.len() && b != item.spec_len() - 1 ==> final(self)@[b] == if b
                    < old(self)@.len() {
                    old(self)@[b]
                } else {
                    Seq::<T>::empty()
                },
            final(self)@[item.spec_len() - 1] == (if item.spec_len() <= old(self)@.len() {
                old(self)@[item.spec_len() - 1]
            } else {
                Seq::<T>::empty()
            }).push(item),
    {
        let l = item.len();
        let ghost old_view = self@;
        while self.data.len() < l
            invariant
                l as nat == item.spec_len(),
                old_view.len() <= self@.len(),
                self@.len() <= if old_view.len() >= l {
                    old_view.len() as int
                } else {
                    l as int
                },
                forall|b: int| 0 <= b < self@.len() ==> #[trigger] self@[b] == if b < old_view.len() {
                    old_view[b]
                } else {
                    Seq::<T>::empty()
                },
                self.data@.len() == self@.len(),
                total(self@) == total(old_view),
            decreases l - self.data@.len(),
        {
            let ghost before = self@;
            self.data.push(Vec::new());
            proof {
                assert(self@.drop_last() =~= before);
                assert(self@.len() == before.len() + 1);
                assert(self@[before.len() as int] == Seq::<T>::empty());
                assert forall|b: int| 0 <= b < before.len() implies #[trigger] self@[b] == before[b] by {}
            }
        }
        let ghost mid = self@;
        self.data[l - 1].push(item);
        proof {
            assert(self@ =~= mid.update(l - 1, mid[l - 1].push(item)));
            lemma_total_update(mid, l - 1, item);
            assert forall|b: int| 0 <= b < self@.len() && b != l - 1 implies #[trigger] self@[b]
                == mid[b] by {}
            assert(self@[l - 1] == mid[l - 1].push(item));
            assert forall|p: Position| #[trigger] self.has(p) implies self.at(p).valid()
                && self.at(p).spec_len() == p.0 + 1 by {
                if p.0 != l - 1 || p.1 < mid[l - 1].len() {
                    assert(self.at(p) == old_view[p.0 as int][p.1 as int]);
                    assert(old(self).has(p));
                }
            }
        }
    }

    /// Number of buckets.
    pub fn bucket_count(&self) -> (r: usize)
        ensures
            r == self@.len(),
    {
        self.data.len()
    }

    /// Number of sets in bucket `b`.
    pub fn bucket_len(&self, b: usize) -> (r: usize)
        requires
            b < self@.len(),
        ensures
            r == self@[b as int].len(),
    {
        self.data[b].len()
    }

    /// The set at `p`.
    pub fn get(&self, p: Position) -> (r: &T)
        requires
            self.has(p),
        ensures
            *r == self.at(p),
    {
        &self.data[p.0][p.1]
    }

    /// The positions of every set in buckets `n` and above, by bucket and then
    /// in insertion order: all sets of length greater than `n`.
    pub fn get_above(&self, n: usize) -> (r: Vec<Position>)
        ensures
            forall|k: int| 0 <= k < r@.len() ==> self.has(#[trigger] r@[k]) && r@[k].0 >= n,
            ascending_positions(r@),
            forall|p: Position| #[trigger] self.has(p) && p.0 >= n ==> r@.contains(p),
    {
        let mut r: Vec<Position> = Vec::new();
        let mut b: usize = n;
        while b < self.data.len()
            invariant
                n <= b,
                b <= self@.len() || b == n,
                self.data@.len() == self@.len(),
                forall|k: int| 0 <= k < r@.len() ==> self.has(#[trigger] r@[k]) && r@[k].0 >= n
                    && r@[k].0 < b,
                forall|k: int, l: int| 0 <= k < l < r@.len() ==> pos_lt(r@[k], r@[l]),
                forall|p: Position| self.has(p) && p.0 >= n && p.0 < b ==> #[trigger] r@.contains(p),
            decreases self@.len() - b,
        {
            let m = self.data[b].len();
            let mut i: usize = 0;
            while i < m
                invariant
                    n <= b < self@.len(),
                    m == self@[b as int].len(),
                    i <= m,
                    self.data@.len() == self@.len(),
                    forall|k: int| 0 <= k < r@.len() ==> self.has(#[trigger] r@[k]) && r@[k].0
                        >= n && (r@[k].0 < b || (r@[k].0 == b && r@[k].1 < i)),
                    forall|k: int, l: int| 0 <= k < l < r@.len() ==> pos_lt(r@[k], r@[l]),
                    forall|p: Position|
                        self.has(p) && p.0 >= n && (p.0 < b || (p.0 == b && p.1 < i))
                            ==> #[trigger] r@.contains(p),
                decreases m - i,
            {
                let ghost before = r@;
                r.push((b, i));
                proof {
                    assert forall|p: Position|
                        self.has(p) && p.0 >= n && (p.0 < b || (p.0 == b && p.1 < i + 1)) implies
                        #[trigger] r@.contains(p) by {
                        if p == (b, i) {
                            assert(r@[before.len() as int] == p);
                        } else {
                            assert(before.contains(p));
                            let k = choose|k: int| 0 <= k < before.len() && before[k] == p;
                            assert(r@[k] == p);
                        }
                    }
                }
                i += 1;
            }
            b += 1;
        }
        r
    }
}

} // verus!
