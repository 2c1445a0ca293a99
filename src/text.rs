use vstd::prelude::*;
use vstd::string::StringExecFns;

verus! {

/// The character of the decimal digit `d`.
pub open spec fn digit_char(d: nat) -> char {
    if d == 0 {
        '0'
    } else if d == 1 {
        '1'
    } else if d == 2 {
        '2'
    } else if d == 3 {
        '3'
    } else if d == 4 {
        '4'
    } else if d == 5 {
        '5'
    } else if d == 6 {
        '6'
    } else if d == 7 {
        '7'
    } else if d == 8 {
        '8'
    } else {
        '9'
    }
}

/// The decimal digits of `n`, without leading zeros.
pub open spec fn decimal(n: nat) -> Seq<char>
    decreases n,
{
    if n < 10 {
        seq![digit_char(n)]
    } else {
        decimal(n / 10).push(digit_char(n % 10))
    }
}

/// The elements of `s` in decimal, joined by ", ".
pub open spec fn record_text(s: Seq<u32>) -> Seq<char>
    decreases s.len(),
{
    if s.len() == 0 {
        Seq::empty()
    } else if s.len() == 1 {
        decimal(s[0] as nat)
    } else {
        record_text(s.drop_last()) + seq![',', ' '] + decimal(s.last() as nat)
    }
}

/// One edge as a line: the source record, "->", the target record, a newline.
pub open spec fn edge_line(a: Seq<u32>, b: Seq<u32>) -> Seq<char> {
    record_text(a) + seq!['-', '>'] + record_text(b) + seq!['\n']
}

/// Edges as text, one line each, in order.
pub open spec fn edges_text(e: Seq<(Seq<u32>, Seq<u32>)>) -> Seq<char>
    decreases e.len(),
{
    if e.len() == 0 {
        Seq::empty()
    } else {
        edges_text(e.drop_last()) + edge_line(e.last().0, e.last().1)
    }
}

/// The element sequences of a list of edges.
pub open spec fn edge_views(e: Seq<(Vec<u32>, Vec<u32>)>) -> Seq<(Seq<u32>, Seq<u32>)> {
    e.map_values(|p: (Vec<u32>, Vec<u32>)| (p.0@, p.1@))
}

fn digit_str(d: u32) -> (r: &'static str)
    requires
        d < 10,
    ensures
        r@ == seq![digit_char(d as nat)],
{
    if d == 0 {
        proof { reveal_strlit("0"); }
        "0"
    } else if d == 1 {
        proof { reveal_strlit("1"); }
        "1"
    } else if d == 2 {
        proof { reveal_strlit("2"); }
        "2"
    } else if d == 3 {
        proof { reveal_strlit("3"); }
        "3"
    } else if d == 4 {
        proof { reveal_strlit("4"); }
        "4"
    } else if d == 5 {
        proof { reveal_strlit("5"); }
        "5"
    } else if d == 6 {
        proof { reveal_strlit("6"); }
        "6"
    } else if d == 7 {
        proof { reveal_strlit("7"); }
        "7"
    } else if d == 8 {
        proof { reveal_strlit("8"); }
        "8"
    } else {
        proof { reveal_strlit("9"); }
        "9"
    }
}

/// Appends the decimal digits of `n` to `out`.
pub(crate) fn push_decimal(out: &mut String, n: u64)
    ensures
        final(out)@ == old(out)@ + decimal(n as nat),
    decreases n,
{
    if n >= 10 {
        push_decimal(out, n / 10);
    }
    out.append(digit_str((n % 10) as u32));
    proof {
        if n >= 10 {
            assert(decimal(n as nat) == decimal((n / 10) as nat).push(digit_char((n % 10) as nat)));
        }
    }
    assert(final(out)@ =~= old(out)@ + decimal(n as nat));
}

/// Appends the record text of `v` to `out`.
fn push_record(out: &mut String, v: &Vec<u32>)
    ensures
        final(out)@ == old(out)@ + record_text(v@),
{
    let ghost start = out@;
    let mut i: usize = 0;
    while i < v.len()
        invariant
            i <= v@.len(),
            out@ == start + record_text(v@.subrange(0, i as int)),
        decreases v@.len() - i,
    {
        if i > 0 {
            proof { reveal_strlit(", "); }
            out.append(", ");
        }
        push_decimal(out, v[i] as u64);
        proof {
            let s1 = v@.subrange(0, i + 1);
            assert(s1.drop_last() =~= v@.subrange(0, i as int));
            if i == 0 {
                assert(record_text(v@.subrange(0, 0)) =~= Seq::<char>::empty());
            }
            assert(out@ =~= start + record_text(s1));
        }
        i += 1;
    }
    assert(v@.subrange(0, v@.len() as int) =~= v@);
}

/// The elements of `v` in decimal, joined by ", ".
pub fn format_record(v: &Vec<u32>) -> (r: String)
    ensures
        r@ == record_text(v@),
{
    let mut out = String::new();
    push_record(&mut out, v);
    assert(out@ =~= record_text(v@));
    out
}

/// The edges as text, one line each: source elements, "->", target elements.
pub fn format_edges(edges: &Vec<(Vec<u32>, Vec<u32>)>) -> (r: String)
    ensures
        r@ == edges_text(edge_views(edges@)),
{
    let mut out = String::new();
    let mut i: usize = 0;
    while i < edges.len()
        invariant
            i <= edges@.len(),
            out@ == edges_text(edge_views(edges@.subrange(0, i as int))),
        decreases edges@.len() - i,
    {
        push_record(&mut out, &edges[i].0);
        proof { reveal_strlit("->"); }
        out.append("->");
        push_record(&mut out, &edges[i].1);
        proof { reveal_strlit("\n"); }
        out.append("\n");
        proof {
            let e1 = edge_views(edges@.subrange(0, i + 1));
            assert(e1.drop_last() =~= edge_views(edges@.subrange(0, i as int)));
            assert(e1.last() == (edges@[i as int].0@, edges@[i as int].1@));
            assert(out@ =~= edges_text(e1));
        }
        i += 1;
    }
    assert(edges@.subrange(0, edges@.len() as int) =~= edges@);
    out
}

} // verus!
