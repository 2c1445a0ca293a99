use vstd::prelude::*;
use vstd::string::{StrSliceExecFns, StringExecFns};

use crate::bitset::{dense_index, extends_index, indices_of, lemma_indices_len, Bitset, BitsetBuilder};
use crate::corpus::{Corpus, Position};
use crate::covering::Edge;
use crate::parse::{numbers_of, parse_record, record_of, split_on};
use crate::string_wrapped::StringWrapped;
use crate::parse::{
    comma_listed, edges_of, lemma_edge_body, lemma_lines_text_round_trip, lemma_listed_side, line_of, lines_text,
    reads_as,
};


verus! {

proof fn lemma_numbers_len(fs: Seq<Seq<char>>)
    requires
        numbers_of(fs) is Some,
    ensures
        numbers_of(fs)->0.len() == fs.len(),
    decreases fs.len(),
{
    if fs.len() > 0 {
        lemma_numbers_len(fs.drop_last());
    }
}

/// Every record that a line gives holds at least one number.
proof fn lemma_record_nonempty(line: Seq<char>)
    requires
        record_of(line) is Some,
    ensures
        record_of(line)->0.len() >= 1,
{
    crate::parse::lemma_split_nonempty(line, ' ');
    lemma_numbers_len(split_on(line, ' '));
}

/// A record: its text and its elements.
pub type Record = (Seq<char>, Seq<u32>);

/// The records whose number of distinct elements is `n`, in order.
pub open spec fn records_of_len(rs: Seq<Record>, n: nat) -> Seq<Record>
    decreases rs.len(),
{
    if rs.len() == 0 {
        Seq::empty()
    } else {
        let r = records_of_len(rs.drop_last(), n);
        if rs.last().1.to_set().len() == n {
            r.push(rs.last())
        } else {
            r
        }
    }
}

/// `c` holds the records `rs`: bucket `b` holds, in order, the records with
/// `b + 1` distinct elements, each with its text and with the indices of its
/// elements under the one dense `index`; every record has its bucket.
pub open spec fn holds_records(c: &Corpus<StringWrapped<Bitset>>, rs: Seq<Record>, index: Map<u32, usize>) -> bool {
    &&& dense_index(index)
    &&& forall|k: int|
        0 <= k < rs.len() ==> (#[trigger] rs[k]).1.to_set().subset_of(index.dom()) && 1 <= rs[k].1.to_set().len()
            <= c@.len()
    &&& forall|b: int| 0 <= b < c@.len() ==> (#[trigger] c@[b]).len() == records_of_len(rs, (b + 1) as nat).len()
    &&& c@.len() > 0 ==> exists|k: int| 0 <= k < rs.len() && (#[trigger] rs[k]).1.to_set().len() == c@.len()
    &&& forall|p: Position| #[trigger] c.has(p) ==> {
        let rec = records_of_len(rs, (p.0 + 1) as nat)[p.1 as int];
        &&& c.at(p).payload@ == rec.0
        &&& c.at(p).internal@ == indices_of(index, rec.1.to_set())
    }
}

/// The texts and element sequences of a list of records.
pub open spec fn record_views(rs: Seq<(String, Vec<u32>)>) -> Seq<Record> {
    rs.map_values(|r: (String, Vec<u32>)| (r.0@, r.1@))
}

proof fn lemma_no_longer_records(rs: Seq<Record>, n: nat, bound: nat)
    requires
        forall|k: int| 0 <= k < rs.len() ==> (#[trigger] rs[k]).1.to_set().len() <= bound,
        n > bound,
    ensures
        records_of_len(rs, n) == Seq::<Record>::empty(),
    decreases rs.len(),
{
    if rs.len() > 0 {
        assert forall|k: int| 0 <= k < rs.drop_last().len() implies (#[trigger] rs.drop_last()[k]).1.to_set().len()
            <= bound by {
            assert(rs.drop_last()[k] == rs[k]);
        }
        lemma_no_longer_records(rs.drop_last(), n, bound);
        assert(rs.last() == rs[rs.len() - 1]);
    }
}

proof fn lemma_indices_stable(d0: Map<u32, usize>, raw: Set<u32>, d1: Map<u32, usize>, s: Set<u32>)
    requires
        extends_index(d0, raw, d1),
        s.subset_of(d0.dom()),
    ensures
        indices_of(d1, s) == indices_of(d0, s),
{
    assert forall|i: nat| indices_of(d1, s).contains(i) <==> indices_of(d0, s).contains(i) by {
        if indices_of(d1, s).contains(i) {
            let x = choose|x: u32| s.contains(x) && #[trigger] d1[x] as nat == i;
            assert(d0.contains_key(x));
            assert(d0[x] as nat == i);
        }
        if indices_of(d0, s).contains(i) {
            let x = choose|x: u32| s.contains(x) && #[trigger] d0[x] as nat == i;
            assert(d0.contains_key(x));
            assert(d1[x] as nat == i);
        }
    }
    assert(indices_of(d1, s) =~= indices_of(d0, s));
}

fn copy_record(v: &Vec<u32>) -> (r: Vec<u32>)
    ensures
        r@ == v@,
{
    let mut r: Vec<u32> = Vec::new();
    let mut i: usize = 0;
    while i < v.len()
        invariant
            i <= v@.len(),
            r@ == v@.subrange(0, i as int),
        decreases v@.len() - i,
    {
        r.push(v[i]);
        i += 1;
    }
    assert(r@ =~= v@);
    r
}

/// Numbers the elements of the records through one fresh builder and files
/// each record's bitset, with the record's text, in the bucket of its number
/// of distinct elements, in order.
pub fn file_records(records: &Vec<(String, Vec<u32>)>) -> (r: Corpus<StringWrapped<Bitset>>)
    requires
        forall|k: int| 0 <= k < records@.len() ==> (#[trigger] records@[k]).1@.len() > 0,
    ensures
        r.wf(),
        r.size() == records@.len(),
        exists|index: Map<u32, usize>| holds_records(&r, record_views(records@), index),
{
    let ghost rs = record_views(records@);
    let mut ret: Corpus<StringWrapped<Bitset>> = Corpus::new();
    let mut builder = BitsetBuilder::new();
    let mut k: usize = 0;
    proof {
        assert(rs.subrange(0, 0) =~= Seq::<Record>::empty());
        assert(builder@ == Map::<u32, usize>::empty());
        assert(dense_index(builder@)) by {
            assert(builder@.dom() =~= Set::<u32>::empty());
        }
    }
    while k < records.len()
        invariant
            k <= records@.len(),
            rs == record_views(records@),
            forall|j: int| 0 <= j < records@.len() ==> (#[trigger] records@[j]).1@.len() > 0,
            ret.wf(),
            builder.wf(),
            ret.size() == k,
            holds_records(&ret, rs.subrange(0, k as int), builder@),
        decreases records@.len() - k,
    {
        let ghost done = rs.subrange(0, k as int);
        let ghost done1 = rs.subrange(0, k + 1);
        let ghost d0 = builder@;
        let ghost old_ret = ret;
        let text = records[k].0.clone();
        let record = copy_record(&records[k].1);
        let ghost set = record@;
        let ghost rec: Record = (text@, set);
        assert(rec == rs[k as int]);
        let internal = builder.add(record);
        let ghost d1 = builder@;
        proof {
            lemma_indices_len(d1, set.to_set());
            assert(set.to_set().contains(set[0]));
            if set.to_set().len() == 0 {
                assert(set.to_set() =~= Set::<u32>::empty());
            }
        }
        let ghost l = internal@.len();
        let ghost slot: int = if l <= old_ret@.len() {
            old_ret@[l - 1].len() as int
        } else {
            0
        };
        ret.add(StringWrapped { payload: text, internal });
        proof {
            assert(done1.drop_last() =~= done);
            assert(done1.last() == rec);
            assert(set.to_set().len() == l);
            let n1 = ret@.len();
            assert forall|j: int| 0 <= j < done1.len() implies (#[trigger] done1[j]).1.to_set().subset_of(d1.dom())
                && 1 <= done1[j].1.to_set().len() <= n1 by {
                if j < k {
                    assert(done1[j] == done[j]);
                }
            }
            if l > old_ret@.len() {
                assert(done1[k as int] == rec);
            } else if old_ret@.len() > 0 {
                let j = choose|j: int| 0 <= j < done.len() && (#[trigger] done[j]).1.to_set().len() == old_ret@.len();
                assert(done1[j] == done[j]);
            }
            assert forall|n: nat| n >= 1 implies #[trigger] records_of_len(done1, n) == if l == n {
                records_of_len(done, n).push(rec)
            } else {
                records_of_len(done, n)
            } by {}
            assert forall|b: int| 0 <= b < n1 implies (#[trigger] ret@[b]).len() == records_of_len(
                done1,
                (b + 1) as nat,
            ).len() by {
                if b >= old_ret@.len() {
                    lemma_no_longer_records(done, (b + 1) as nat, old_ret@.len());
                }
            }
            assert forall|p: Position| #[trigger] ret.has(p) implies ({
                let r1 = records_of_len(done1, (p.0 + 1) as nat)[p.1 as int];
                &&& ret.at(p).payload@ == r1.0
                &&& ret.at(p).internal@ == indices_of(d1, r1.1.to_set())
            }) by {
                let b = p.0 as int;
                if b >= old_ret@.len() {
                    lemma_no_longer_records(done, (b + 1) as nat, old_ret@.len());
                }
                if b == l - 1 && p.1 as int == slot {
                    assert(ret.at(p).internal@ == indices_of(d1, set.to_set()));
                } else {
                    assert(old_ret.has(p));
                    assert(ret.at(p) == old_ret.at(p));
                    let r0 = records_of_len(done, (p.0 + 1) as nat)[p.1 as int];
                    assert(records_of_len(done1, (p.0 + 1) as nat)[p.1 as int] == r0);
                    lemma_record_in_done(done, (p.0 + 1) as nat, p.1 as int);
                    let j = choose|j: int| 0 <= j < done.len() && done[j] == r0;
                    assert(r0.1.to_set().subset_of(d0.dom()));
                    lemma_indices_stable(d0, set.to_set(), d1, r0.1.to_set());
                }
            }
        }
        k += 1;
    }
    proof {
        assert(rs.subrange(0, records@.len() as int) =~= rs);
    }
    ret
}

proof fn lemma_record_in_done(rs: Seq<Record>, n: nat, i: int)
    requires
        0 <= i < records_of_len(rs, n).len(),
    ensures
        exists|j: int| 0 <= j < rs.len() && rs[j] == records_of_len(rs, n)[i],
    decreases rs.len(),
{
    let r = records_of_len(rs.drop_last(), n);
    if i < r.len() {
        lemma_record_in_done(rs.drop_last(), n, i);
        let j = choose|j: int| 0 <= j < rs.drop_last().len() && rs.drop_last()[j] == r[i];
        assert(rs[j] == r[i]);
    } else {
        assert(rs[rs.len() - 1] == records_of_len(rs, n)[i]);
    }
}

/// Each line with the record it gives.
pub open spec fn line_records(lines: Seq<String>) -> Seq<Record> {
    lines.map_values(|l: String| (l@, record_of(l@)->0))
}

/// The characters of `s`.
fn chars_of(s: &String) -> (r: Vec<char>)
    ensures
        r@ == s@,
{
    let t = s.as_str();
    let n = t.unicode_len();
    let mut r: Vec<char> = Vec::new();
    let mut i: usize = 0;
    while i < n
        invariant
            n == t@.len(),
            t@ == s@,
            i <= n,
            r@ == t@.subrange(0, i as int),
        decreases n - i,
    {
        r.push(t.get_char(i));
        i += 1;
    }
    assert(r@ =~= s@);
    r
}

/// Reads each line as a record and files the lines, each as its set's text,
/// as `file_records` does. Fails with the index of the first line that is not
/// a record.
pub fn read_into_corpus(lines: &Vec<String>) -> (r: Result<Corpus<StringWrapped<Bitset>>, usize>)
    ensures
        match r {
            Ok(c) => {
                &&& c.wf()
                &&& c.size() == lines@.len()
                &&& forall|l: int| 0 <= l < lines@.len() ==> #[trigger] record_of(lines@[l]@) is Some
                &&& exists|index: Map<u32, usize>| holds_records(&c, line_records(lines@), index)
            },
            Err(i) => {
                &&& i < lines@.len()
                &&& record_of(lines@[i as int]@) is None
                &&& forall|l: int| 0 <= l < i ==> #[trigger] record_of(lines@[l]@) is Some
            },
        },
{
    let mut records: Vec<(String, Vec<u32>)> = Vec::new();
    let mut k: usize = 0;
    while k < lines.len()
        invariant
            k <= lines@.len(),
            records@.len() == k,
            forall|l: int| 0 <= l < k ==> #[trigger] record_of(lines@[l]@) == Some(records@[l].1@),
            forall|l: int| 0 <= l < k ==> (#[trigger] records@[l]).0@ == lines@[l]@,
            forall|l: int| 0 <= l < k ==> (#[trigger] records@[l]).1@.len() > 0,
        decreases lines@.len() - k,
    {
        let chars = chars_of(&lines[k]);
        match parse_record(&chars) {
            None => {
                return Err(k);
            },
            Some(v) => {
                proof {
                    lemma_record_nonempty(lines@[k as int]@);
                }
                records.push((lines[k].clone(), v));
            },
        }
        k += 1;
    }
    let c = file_records(&records);
    proof {
        assert(record_views(records@) =~= line_records(lines@));
    }
    Ok(c)
}

/// One edge's line without its newline: each end's text, spaces written as
/// ", ", joined by "->".
pub open spec fn edge_body_of(c: &Corpus<StringWrapped<Bitset>>, e: Edge) -> Seq<char> {
    comma_listed(c.at(e.0).payload@) + seq!['-', '>'] + comma_listed(c.at(e.1).payload@)
}

/// The text of the edges: one line each, as `edge_body_of` writes it.
pub open spec fn edge_lines(c: &Corpus<StringWrapped<Bitset>>, edges: Seq<Edge>) -> Seq<char>
    decreases edges.len(),
{
    if edges.len() == 0 {
        Seq::empty()
    } else {
        edge_lines(c, edges.drop_last()) + edge_body_of(c, edges.last()) + seq!['\n']
    }
}

/// Appends `t` to `out` with each space that does not follow a ',' written as ", ".
fn push_listed(out: &mut String, t: &String)
    ensures
        final(out)@ == old(out)@ + comma_listed(t@),
{
    let ghost start = out@;
    let chars = chars_of(t);
    let s = t.as_str();
    let mut i: usize = 0;
    assert(t@.subrange(0, 0) =~= Seq::<char>::empty());
    while i < chars.len()
        invariant
            chars@ == t@,
            s@ == t@,
            i <= chars@.len(),
            out@ == start + comma_listed(t@.subrange(0, i as int)),
        decreases chars@.len() - i,
    {
        let c = chars[i];
        let ghost pre = t@.subrange(0, i + 1);
        proof {
            assert(pre.drop_last() =~= t@.subrange(0, i as int));
            assert(pre.last() == c);
            if i > 0 {
                assert(pre.drop_last().last() == chars@[i - 1]);
            }
        }
        if c == ' ' && !(i > 0 && chars[i - 1] == ',') {
            proof { reveal_strlit(", "); }
            out.append(", ");
        } else {
            out.append(s.substring_char(i, i + 1));
            assert(s@.subrange(i as int, i + 1) =~= seq![c]);
        }
        assert(out@ =~= start + comma_listed(pre));
        i += 1;
    }
    assert(t@.subrange(0, chars@.len() as int) =~= t@);
}

/// The edges as text, one line each: the texts of the two ends, their spaces
/// written as ", " (a space already after a ',' is kept), joined by "->".
pub fn write_edges(corpus: &Corpus<StringWrapped<Bitset>>, edges: &Vec<Edge>) -> (r: String)
    requires
        forall|k: int| 0 <= k < edges@.len() ==> corpus.has((#[trigger] edges@[k]).0) && corpus.has(edges@[k].1),
    ensures
        r@ == edge_lines(corpus, edges@),
{
    let mut out = String::new();
    let mut k: usize = 0;
    while k < edges.len()
        invariant
            k <= edges@.len(),
            forall|j: int| 0 <= j < edges@.len() ==> corpus.has((#[trigger] edges@[j]).0) && corpus.has(edges@[j].1),
            out@ == edge_lines(corpus, edges@.subrange(0, k as int)),
        decreases edges@.len() - k,
    {
        let e = edges[k];
        let a = corpus.get(e.0);
        let b = corpus.get(e.1);
        push_listed(&mut out, &a.payload);
        proof { reveal_strlit("->"); }
        out.append("->");
        push_listed(&mut out, &b.payload);
        proof { reveal_strlit("\n"); }
        out.append("\n");
        proof {
            let pre = edges@.subrange(0, k + 1);
            assert(pre.drop_last() =~= edges@.subrange(0, k as int));
            assert(pre.last() == e);
            assert(out@ =~= edge_lines(corpus, pre));
        }
        k += 1;
    }
    assert(edges@.subrange(0, edges@.len() as int) =~= edges@);
    out
}

/// The record pairs of `edges` when the set at each position carries the
/// record `recs` gives for it.
pub open spec fn edge_records(edges: Seq<Edge>, recs: spec_fn(Position) -> Seq<u32>) -> Seq<(Seq<u32>, Seq<u32>)> {
    edges.map_values(|e: Edge| (recs(e.0), recs(e.1)))
}

/// The lines `edge_lines` writes, without their newlines.
pub open spec fn edge_bodies(c: &Corpus<StringWrapped<Bitset>>, edges: Seq<Edge>) -> Seq<Seq<char>> {
    edges.map_values(|e: Edge| edge_body_of(c, e))
}

proof fn lemma_edge_lines_are_lines(c: &Corpus<StringWrapped<Bitset>>, edges: Seq<Edge>)
    ensures
        edge_lines(c, edges) == lines_text(edge_bodies(c, edges)),
    decreases edges.len(),
{
    if edges.len() > 0 {
        lemma_edge_lines_are_lines(c, edges.drop_last());
        assert(edge_bodies(c, edges).drop_last() =~= edge_bodies(c, edges.drop_last()));
        assert(edge_bodies(c, edges).last() == edge_body_of(c, edges.last()));
    }
}

/// When the text at each end of the edges is its record's text, either a line
/// of space-separated numbers as read or the ", "-separated decimals, the
/// written edges read back as the pairs of those records, in order.
pub proof fn lemma_written_edges_round_trip(
    c: &Corpus<StringWrapped<Bitset>>,
    edges: Seq<Edge>,
    recs: spec_fn(Position) -> Seq<u32>,
)
    requires
        forall|k: int|
            0 <= k < edges.len() ==> reads_as(c.at((#[trigger] edges[k]).0).payload@, recs(edges[k].0))
                && reads_as(c.at(edges[k].1).payload@, recs(edges[k].1)),
    ensures
        edges_of(edge_lines(c, edges)) == Some(edge_records(edges, recs)),
{
    let bodies = edge_bodies(c, edges);
    let pairs = edge_records(edges, recs);
    assert forall|k: int| 0 <= k < bodies.len() implies !(#[trigger] bodies[k]).contains('\n') && line_of(bodies[k])
        == Some(pairs[k]) by {
        let e = edges[k];
        lemma_listed_side(c.at(e.0).payload@, recs(e.0));
        lemma_listed_side(c.at(e.1).payload@, recs(e.1));
        lemma_edge_body(
            comma_listed(c.at(e.0).payload@),
            comma_listed(c.at(e.1).payload@),
            recs(e.0),
            recs(e.1),
        );
    }
    lemma_lines_text_round_trip(bodies, pairs);
    lemma_edge_lines_are_lines(c, edges);
}

} // verus!
