use std::collections::HashSet;
use vstd::prelude::*;

use crate::almost_set::AlmostSet;
use crate::bitset::{dense_index, indices_of, Bitset};
use crate::corpus::SubsetTest;

verus! {

/// Sets built from the same raw elements agree across representations: the
/// bitset test (over one shared element index), the sorted-array test and the
/// hash-based test return the same answer for every pair.
pub proof fn lemma_representations_agree(
    index: Map<u32, usize>,
    x: Seq<u32>,
    y: Seq<u32>,
    bx: Bitset,
    by: Bitset,
    hx: HashSet<u32>,
    hy: HashSet<u32>,
    sx: AlmostSet,
    sy: AlmostSet,
)
    requires
        dense_index(index),
        x.to_set().subset_of(index.dom()),
        y.to_set().subset_of(index.dom()),
        bx@ == indices_of(index, x.to_set()),
        by@ == indices_of(index, y.to_set()),
        hx@ == x.to_set(),
        hy@ == y.to_set(),
        sx.wf(),
        sy.wf(),
        sx@.to_set() == x.to_set(),
        sy@.to_set() == y.to_set(),
    ensures
        bx.subset_spec(&by) == hx.subset_spec(&hy),
        sx.subset_spec(&sy) == hx.subset_spec(&hy),
{
    let xs = x.to_set();
    let ys = y.to_set();
    if xs.subset_of(ys) {
        assert forall|i: nat| bx@.contains(i) implies by@.contains(i) by {
            let z = choose|z: u32| xs.contains(z) && #[trigger] index[z] as nat == i;
            assert(ys.contains(z));
        }
    }
    if bx@.subset_of(by@) {
        assert forall|z: u32| xs.contains(z) implies ys.contains(z) by {
            assert(index.contains_key(z));
            assert(bx@.contains(index[z] as nat));
            let w = choose|w: u32| ys.contains(w) && #[trigger] index[w] as nat == index[z] as nat;
            assert(index.contains_key(w));
        }
    }
}

} // verus!
