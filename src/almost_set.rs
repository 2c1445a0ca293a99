use vstd::prelude::*;

use crate::corpus::{KnownLength, SubsetTest};
use crate::sorting::{sorted_distinct, strictly_ascending};
use crate::text::{format_record, record_text};

verus! {

/// A set stored as its elements in strictly ascending order.
pub struct AlmostSet {
    internal_vec: Vec<u32>,
}

impl AlmostSet {
    /// The elements, ascending.
    pub closed spec fn view(&self) -> Seq<u32> {
        self.internal_vec@
    }

    pub open spec fn wf(&self) -> bool {
        strictly_ascending(self@)
    }

    /// Whether every element of `self` is an element of `other`. The position
    /// of `self`'s first element is found in `other`; from there both are
    /// walked forward together, skipping smaller elements of `other`, failing
    /// on a larger one or when `other` ends.
    pub fn is_subset(&self, other: &AlmostSet) -> (r: bool)
        requires
            self.wf(),
            other.wf(),
        ensures
            r == self@.to_set().subset_of(other@.to_set()),
    {
        let n = self.internal_vec.len();
        let m = other.internal_vec.len();
        if m < n {
            proof {
                if self@.to_set().subset_of(other@.to_set()) {
                    assert(self@.no_duplicates());
                    assert(other@.no_duplicates());
                    self@.unique_seq_to_set();
                    other@.unique_seq_to_set();
                    vstd::set_lib::lemma_len_subset(self@.to_set(), other@.to_set());
                }
            }
            return false;
        }
        if n == 0 {
            proof {
                assert forall|x: u32| self@.to_set().contains(x) implies other@.to_set().contains(x) by {
                    assert(self@.contains(x));
                }
            }
            return true;
        }
        let start = match get_first_idx(self, other) {
            None => {
                proof {
                    assert(self@.to_set().contains(self@[0]));
                    if other@.contains(self@[0]) {
                        let q = choose|q: int| 0 <= q < other@.len() && other@[q] == self@[0];
                    }
                }
                return false;
            },
            Some(i) => i,
        };
        proof {
            assert forall|q: int| 0 <= q < start + 1 implies other@[q] <= self@[0] by {
                if q < start {
                    assert(other@[q] < other@[start as int]);
                }
            }
            assert(other@.contains(self@[0])) by {
                assert(other@[start as int] == self@[0]);
            }
        }
        let mut j: usize = start + 1;
        let mut i: usize = 1;
        while i < n
            invariant
                self.wf(),
                other.wf(),
                n == self@.len(),
                m == other@.len(),
                1 <= i <= n,
                j <= m,
                forall|t: int| 0 <= t < i ==> other@.contains(#[trigger] self@[t]),
                forall|q: int| 0 <= q < j ==> other@[q] <= self@[i - 1],
            decreases n - i,
        {
            let x = self.internal_vec[i];
            assert(self@[i - 1] < x);
            while j < m && other.internal_vec[j] < x
                invariant
                    other.wf(),
                    m == other@.len(),
                    j <= m,
                    x == self@[i as int],
                    forall|q: int| 0 <= q < j ==> other@[q] < x,
                decreases m - j,
            {
                j += 1;
            }
            if j >= m || other.internal_vec[j] != x {
                proof {
                    assert(self@.to_set().contains(x));
                    if other@.contains(x) {
                        let q = choose|q: int| 0 <= q < other@.len() && other@[q] == x;
                        if q > j {
                            assert(other@[j as int] < other@[q]);
                        }
                    }
                }
                return false;
            }
            proof {
                assert(other@[j as int] == x);
                assert forall|q: int| 0 <= q < j + 1 implies other@[q] <= self@[i as int] by {
                    if q < j {
                        assert(other@[q] < x);
                    }
                }
            }
            i += 1;
            j += 1;
        }
        proof {
            assert forall|x: u32| self@.to_set().contains(x) implies other@.to_set().contains(x) by {
                let t = choose|t: int| 0 <= t < self@.len() && self@[t] == x;
                assert(other@.contains(self@[t]));
            }
        }
        true
    }

    /// The set of the distinct elements of `internal_vec`, sorted.
    pub fn new(internal_vec: Vec<u32>) -> (r: Self)
        ensures
            r.wf(),
            r@.to_set() == internal_vec@.to_set(),
    {
        AlmostSet { internal_vec: sorted_distinct(internal_vec) }
    }

    /// The elements in decimal, joined by ", ".
    pub fn to_string(&self) -> (r: String)
        ensures
            r@ == record_text(self@),
    {
        format_record(&self.internal_vec)
    }

    /// The elements, ascending.
    pub fn elements(&self) -> (r: &Vec<u32>)
        ensures
            r@ == self@,
    {
        &self.internal_vec
    }
}

/// The first position of `a`'s first element in `b`.
fn get_first_idx(a: &AlmostSet, b: &AlmostSet) -> (r: Option<usize>)
    requires
        a@.len() > 0,
    ensures
        match r {
            Some(i) => i < b@.len() && b@[i as int] == a@[0] && forall|j: int|
                0 <= j < i ==> b@[j] != a@[0],
            None => forall|j: int| 0 <= j < b@.len() ==> b@[j] != a@[0],
        },
{
    let mut i: usize = 0;
    while i < b.internal_vec.len()
        invariant
            a@.len() > 0,
            i <= b@.len(),
            forall|j: int| 0 <= j < i ==> b@[j] != a@[0],
        decreases b@.len() - i,
    {
        if a.internal_vec[0] == b.internal_vec[i] {
            return Some(i);
        }
        i += 1;
    }
    None
}

impl KnownLength for AlmostSet {
    open spec fn spec_len(&self) -> nat {
        self@.len()
    }

    open spec fn valid(&self) -> bool {
        self.wf()
    }

    /// Number of elements.
    fn len(&self) -> (r: usize) {
        self.internal_vec.len()
    }
}

impl SubsetTest for AlmostSet {
    open spec fn subset_spec(&self, other: &Self) -> bool {
        self@.to_set().subset_of(other@.to_set())
    }

    fn is_subset(&self, other: &Self) -> (r: bool) {
        AlmostSet::is_subset(self, other)
    }
}

} // verus!
