use rand::Rng;
use vstd::prelude::*;

use crate::bitset::Bitset;
use crate::corpus::Corpus;
use crate::string_wrapped::StringWrapped;
use crate::pipeline::{file_records, holds_records, record_views, Record};
use crate::text::{format_record, record_text};

verus! {

/// The sequence 0, 1, ..., n - 1.
pub open spec fn first_naturals(n: nat) -> Seq<u32> {
    Seq::new(n, |i: int| i as u32)
}

/// Relies on rand's `Rng::gen_range` over `thread_rng()`: a value drawn from
/// `1..=max_len`, which it panics on only when that range is empty.
#[verifier::external_body]
fn random_length(max_len: u32) -> (r: u32)
    requires
        max_len >= 1,
    ensures
        1 <= r <= max_len,
{
    rand::thread_rng().gen_range(1..=max_len)
}

/// The record 0, 1, ..., len - 1 with its text.
pub fn counting_record(len: u32) -> (r: (Vec<u32>, String))
    ensures
        r.0@ == first_naturals(len as nat),
        r.1@ == record_text(first_naturals(len as nat)),
{
    let mut set: Vec<u32> = Vec::new();
    let mut x: u32 = 0;
    while x < len
        invariant
            x <= len,
            set@ == first_naturals(x as nat),
        decreases len - x,
    {
        set.push(x);
        x += 1;
        assert(set@ =~= first_naturals(x as nat));
    }
    let text = format_record(&set);
    (set, text)
}

/// The records 0, 1, ..., k - 1 for each length k of `lengths`, in order,
/// filed as `file_records` does.
pub fn corpus_of_lengths(lengths: &Vec<u32>) -> (r: Corpus<StringWrapped<Bitset>>)
    requires
        forall|k: int| 0 <= k < lengths@.len() ==> #[trigger] lengths@[k] >= 1,
    ensures
        r.wf(),
        r.size() == lengths@.len(),
        exists|index: Map<u32, usize>| holds_records(&r, counting_records(lengths@), index),
{
    let mut records: Vec<(String, Vec<u32>)> = Vec::new();
    let mut k: usize = 0;
    while k < lengths.len()
        invariant
            k <= lengths@.len(),
            forall|j: int| 0 <= j < lengths@.len() ==> #[trigger] lengths@[j] >= 1,
            record_views(records@) == counting_records(lengths@.subrange(0, k as int)),
        decreases lengths@.len() - k,
    {
        let (set, text) = counting_record(lengths[k]);
        let ghost before = records@;
        let ghost sv = (text@, set@);
        records.push((text, set));
        proof {
            assert(record_views(records@) =~= record_views(before).push(sv));
            assert(counting_records(lengths@.subrange(0, k + 1)) =~= counting_records(
                lengths@.subrange(0, k as int),
            ).push(
                (record_text(first_naturals(lengths@[k as int] as nat)), first_naturals(lengths@[k as int] as nat)),
            ));
            assert(record_views(records@) =~= counting_records(lengths@.subrange(0, k + 1)));
        }
        k += 1;
    }
    proof {
        assert(lengths@.subrange(0, lengths@.len() as int) =~= lengths@);
        assert forall|j: int| 0 <= j < records@.len() implies (#[trigger] records@[j]).1@.len() > 0 by {
            assert(record_views(records@)[j].1 == records@[j].1@);
        }
    }
    file_records(&records)
}

/// The record 0, 1, ..., k - 1, with its text, for each length k of `lengths`.
pub open spec fn counting_records(lengths: Seq<u32>) -> Seq<Record> {
    lengths.map_values(|k: u32| (record_text(first_naturals(k as nat)), first_naturals(k as nat)))
}

/// A corpus of `num` records, each 0, 1, ..., k - 1 for a length k drawn at
/// random from 1 to `max_len`, filed as `corpus_of_lengths` does.
pub fn make_random_corpus(max_len: u32, num: u32) -> (r: Corpus<StringWrapped<Bitset>>)
    requires
        num == 0 || max_len >= 1,
    ensures
        r.wf(),
        r.size() == num,
        r@.len() <= max_len,
        exists|lengths: Seq<u32>, index: Map<u32, usize>|
            lengths.len() == num && (forall|k: int| 0 <= k < num ==> 1 <= #[trigger] lengths[k] <= max_len)
                && holds_records(&r, counting_records(lengths), index),
{
    let mut lengths: Vec<u32> = Vec::new();
    let mut i: u32 = 0;
    while i < num
        invariant
            num == 0 || max_len >= 1,
            i <= num,
            lengths@.len() == i,
            forall|k: int| 0 <= k < i ==> 1 <= #[trigger] lengths@[k] <= max_len,
        decreases num - i,
    {
        lengths.push(random_length(max_len));
        i += 1;
    }
    let r = corpus_of_lengths(&lengths);
    proof {
        let index = choose|index: Map<u32, usize>| holds_records(&r, counting_records(lengths@), index);
        if r@.len() > 0 {
            let rs = counting_records(lengths@);
            let j = choose|j: int| 0 <= j < rs.len() && (#[trigger] rs[j]).1.to_set().len() == r@.len();
            assert(rs[j].1 == first_naturals(lengths@[j] as nat));
            assert(rs[j].1.no_duplicates());
            rs[j].1.unique_seq_to_set();
        }
    }
    r
}

} // verus!
