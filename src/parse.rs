use vstd::prelude::*;

use crate::text::{decimal, digit_char, edge_line, edges_text, record_text};

verus! {

/// `s` split at every occurrence of `c` (`c` itself dropped): one more part
/// than there are occurrences.
pub open spec fn split_on(s: Seq<char>, c: char) -> Seq<Seq<char>>
    decreases s.len(),
{
    if s.len() == 0 {
        seq![Seq::<char>::empty()]
    } else {
        let r = split_on(s.drop_last(), c);
        if s.last() == c {
            r.push(Seq::<char>::empty())
        } else {
            r.update(r.len() - 1, r.last().push(s.last()))
        }
    }
}

/// `c` is a decimal digit.
pub open spec fn is_digit(c: char) -> bool {
    48 <= (c as u32) <= 57
}

/// The value of the decimal digits `t`.
pub open spec fn digits_value(t: Seq<char>) -> nat
    decreases t.len(),
{
    if t.len() == 0 {
        0
    } else {
        digits_value(t.drop_last()) * 10 + ((t.last() as u32) - 48) as nat
    }
}

/// `t` without a leading '+'.
pub open spec fn unsigned_part(t: Seq<char>) -> Seq<char> {
    if t.len() > 0 && t[0] == '+' {
        t.drop_first()
    } else {
        t
    }
}

/// `body` is at least one decimal digit.
pub open spec fn all_digits(body: Seq<char>) -> bool {
    body.len() > 0 && forall|i: int| 0 <= i < body.len() ==> is_digit(#[trigger] body[i])
}

/// The number written in `t`: an optional '+' and at least one decimal digit,
/// with a value that fits in a `u32`.
pub open spec fn number_of(t: Seq<char>) -> Option<u32> {
    if all_digits(unsigned_part(t)) && digits_value(unsigned_part(t)) <= u32::MAX {
        Some(digits_value(unsigned_part(t)) as u32)
    } else {
        None
    }
}

/// The numbers written in `fs`, or `None` if one of them is not a number.
pub open spec fn numbers_of(fs: Seq<Seq<char>>) -> Option<Seq<u32>>
    decreases fs.len(),
{
    if fs.len() == 0 {
        Some(Seq::empty())
    } else {
        match (numbers_of(fs.drop_last()), number_of(fs.last())) {
            (Some(v), Some(n)) => Some(v.push(n)),
            _ => None,
        }
    }
}

/// The record written in `line`: numbers separated by single spaces.
pub open spec fn record_of(line: Seq<char>) -> Option<Seq<u32>> {
    numbers_of(split_on(line, ' '))
}

/// A field of a ", "-separated list: the first is a number, each other a space
/// and a number.
pub open spec fn list_field_of(f: Seq<char>, first: bool) -> Option<u32> {
    if first {
        number_of(f)
    } else if f.len() > 0 && f[0] == ' ' {
        number_of(f.drop_first())
    } else {
        None
    }
}

pub open spec fn list_fields_of(fs: Seq<Seq<char>>) -> Option<Seq<u32>>
    decreases fs.len(),
{
    if fs.len() == 0 {
        Some(Seq::empty())
    } else {
        match (list_fields_of(fs.drop_last()), list_field_of(fs.last(), fs.len() == 1)) {
            (Some(v), Some(n)) => Some(v.push(n)),
            _ => None,
        }
    }
}

/// The numbers of a ", "-separated list (none for the empty text).
pub open spec fn list_of(s: Seq<char>) -> Option<Seq<u32>> {
    if s.len() == 0 {
        Some(Seq::empty())
    } else {
        list_fields_of(split_on(s, ','))
    }
}

/// The edge written in one line (without its newline): a list, "->", a list.
pub open spec fn line_of(l: Seq<char>) -> Option<(Seq<u32>, Seq<u32>)> {
    let parts = split_on(l, '>');
    if parts.len() == 2 && parts[0].len() > 0 && parts[0].last() == '-' {
        match (list_of(parts[0].drop_last()), list_of(parts[1])) {
            (Some(a), Some(b)) => Some((a, b)),
            _ => None,
        }
    } else {
        None
    }
}

pub open spec fn lines_of(ls: Seq<Seq<char>>) -> Option<Seq<(Seq<u32>, Seq<u32>)>>
    decreases ls.len(),
{
    if ls.len() == 0 {
        Some(Seq::empty())
    } else {
        match (lines_of(ls.drop_last()), line_of(ls.last())) {
            (Some(v), Some(e)) => Some(v.push(e)),
            _ => None,
        }
    }
}

/// The edges written in `text`: lines, each ended by a newline.
pub open spec fn edges_of(text: Seq<char>) -> Option<Seq<(Seq<u32>, Seq<u32>)>> {
    let ls = split_on(text, '\n');
    if ls.last().len() == 0 {
        lines_of(ls.drop_last())
    } else {
        None
    }
}

/// Splitting gives at least one part.
pub proof fn lemma_split_nonempty(s: Seq<char>, c: char)
    ensures
        split_on(s, c).len() >= 1,
    decreases s.len(),
{
    if s.len() > 0 {
        lemma_split_nonempty(s.drop_last(), c);
    }
}

/// Text without `c` is one part.
proof fn lemma_split_none(b: Seq<char>, c: char)
    requires
        !b.contains(c),
    ensures
        split_on(b, c) == seq![b],
    decreases b.len(),
{
    if b.len() > 0 {
        let d = b.drop_last();
        assert(!d.contains(c)) by {
            if d.contains(c) {
                let i = choose|i: int| 0 <= i < d.len() && d[i] == c;
                assert(b[i] == c);
            }
        }
        lemma_split_none(d, c);
        assert(b.last() != c) by {
            assert(b[b.len() - 1] == b.last());
        }
        assert(d.push(b.last()) =~= b);
        assert(split_on(b, c) =~= seq![b]);
    } else {
        assert(b =~= Seq::<char>::empty());
    }
}

/// A part without `c` after the last `c` is the last part.
proof fn lemma_split_append(a: Seq<char>, c: char, b: Seq<char>)
    requires
        !b.contains(c),
    ensures
        split_on(a + seq![c] + b, c) == split_on(a, c).push(b),
    decreases b.len(),
{
    if b.len() == 0 {
        let s = a + seq![c] + b;
        assert(s.drop_last() =~= a);
        assert(s.last() == c);
        assert(b =~= Seq::<char>::empty());
        assert(split_on(s, c) == split_on(s.drop_last(), c).push(Seq::<char>::empty()));
    } else {
        let d = b.drop_last();
        assert(!d.contains(c)) by {
            if d.contains(c) {
                let i = choose|i: int| 0 <= i < d.len() && d[i] == c;
                assert(b[i] == c);
            }
        }
        lemma_split_append(a, c, d);
        let s = a + seq![c] + b;
        assert(s.drop_last() =~= a + seq![c] + d);
        assert(s.last() == b.last());
        assert(b.last() != c) by {
            assert(b[b.len() - 1] == b.last());
        }
        assert(d.push(b.last()) =~= b);
        assert(split_on(s, c) =~= split_on(a, c).push(b));
    }
}

proof fn lemma_digit_char(d: nat)
    requires
        d < 10,
    ensures
        digit_char(d) as u32 == 48 + d,
{
}

proof fn lemma_decimal_digits(n: nat)
    ensures
        forall|i: int| 0 <= i < decimal(n).len() ==> is_digit(#[trigger] decimal(n)[i]),
        decimal(n).len() > 0,
        digits_value(decimal(n)) == n,
    decreases n,
{
    lemma_digit_char(n % 10);
    if n >= 10 {
        lemma_decimal_digits(n / 10);
        let d = decimal(n / 10);
        assert(decimal(n) == d.push(digit_char(n % 10)));
        assert(decimal(n).drop_last() =~= d);
        assert(decimal(n).last() == digit_char(n % 10));
        assert(digits_value(decimal(n)) == digits_value(d) * 10 + (n % 10));
        assert((n / 10) * 10 + n % 10 == n);
        assert(forall|i: int| 0 <= i < decimal(n).len() ==> is_digit(#[trigger] decimal(n)[i])) by {
            assert forall|i: int| 0 <= i < decimal(n).len() implies is_digit(#[trigger] decimal(n)[i]) by {
                if i < d.len() {
                    assert(decimal(n)[i] == d[i]);
                }
            }
        }
    } else {
        assert(decimal(n).drop_last() =~= Seq::<char>::empty());
        assert(decimal(n)[0] == digit_char(n));
        assert(decimal(n).last() == digit_char(n));
        assert(digits_value(decimal(n)) == digits_value(Seq::<char>::empty()) * 10 + n);
    }
}

proof fn lemma_decimal_plain(n: nat)
    ensures
        !decimal(n).contains(','),
        !decimal(n).contains(' '),
        !decimal(n).contains('>'),
        !decimal(n).contains('\n'),
        !decimal(n).contains('-'),
        decimal(n).len() > 0,
        decimal(n)[0] != '+',
{
    lemma_decimal_digits(n);
    assert forall|ch: char| !is_digit(ch) implies !decimal(n).contains(ch) by {
        if decimal(n).contains(ch) {
            let i = choose|i: int| 0 <= i < decimal(n).len() && decimal(n)[i] == ch;
            assert(is_digit(decimal(n)[i]));
        }
    }
    assert(is_digit(decimal(n)[0]));
}

proof fn lemma_number_of_decimal(n: u32)
    ensures
        number_of(decimal(n as nat)) == Some(n),
{
    lemma_decimal_plain(n as nat);
    lemma_decimal_digits(n as nat);
}

proof fn lemma_record_plain(v: Seq<u32>)
    ensures
        !record_text(v).contains('>'),
        !record_text(v).contains('\n'),
        !record_text(v).contains('-'),
        record_text(v).len() == 0 <==> v.len() == 0,
    decreases v.len(),
{
    if v.len() == 1 {
        lemma_decimal_plain(v[0] as nat);
    } else if v.len() > 1 {
        lemma_record_plain(v.drop_last());
        lemma_decimal_plain(v.last() as nat);
        let t = record_text(v);
        assert forall|ch: char| ch == '>' || ch == '\n' || ch == '-' implies !t.contains(ch) by {
            let a = record_text(v.drop_last());
            let b = decimal(v.last() as nat);
            if t.contains(ch) {
                let i = choose|i: int| 0 <= i < t.len() && t[i] == ch;
                if i < a.len() {
                    assert(a[i] == ch);
                } else if i >= a.len() + 2 {
                    assert(b[i - a.len() - 2] == ch);
                }
            }
        }
    }
}

/// Splitting a record's text at ',' gives its decimals, each but the first
/// after a space.
proof fn lemma_list_round_trip(v: Seq<u32>)
    requires
        v.len() > 0,
    ensures
        list_fields_of(split_on(record_text(v), ',')) == Some(v),
        split_on(record_text(v), ',').len() == v.len(),
    decreases v.len(),
{
    if v.len() == 1 {
        lemma_decimal_plain(v[0] as nat);
        lemma_split_none(decimal(v[0] as nat), ',');
        lemma_number_of_decimal(v[0]);
        let fs = split_on(record_text(v), ',');
        assert(record_text(v) == decimal(v[0] as nat));
        assert(fs == seq![decimal(v[0] as nat)]);
        assert(fs.drop_last() =~= Seq::<Seq<char>>::empty());
        assert(fs.last() == decimal(v[0] as nat));
        assert(list_fields_of(fs.drop_last()) == Some(Seq::<u32>::empty()));
        assert(list_field_of(fs.last(), true) == Some(v[0]));
        assert(Seq::<u32>::empty().push(v[0]) =~= v);
    } else {
        let d = v.drop_last();
        lemma_list_round_trip(d);
        let b = decimal(v.last() as nat);
        lemma_decimal_plain(v.last() as nat);
        let field = seq![' '] + b;
        assert(!field.contains(',')) by {
            if field.contains(',') {
                let i = choose|i: int| 0 <= i < field.len() && field[i] == ',';
                assert(b[i - 1] == ',');
            }
        }
        assert(record_text(v) =~= record_text(d) + seq![','] + field);
        lemma_split_append(record_text(d), ',', field);
        let fs = split_on(record_text(v), ',');
        assert(fs.drop_last() =~= split_on(record_text(d), ','));
        assert(field.drop_first() =~= b);
        lemma_number_of_decimal(v.last());
        assert(fs.last() == field);
        assert(fs.len() == v.len());
        assert(list_field_of(fs.last(), false) == Some(v.last()));
        assert(d.push(v.last()) =~= v);
    }
}

proof fn lemma_list_of_record(v: Seq<u32>)
    ensures
        list_of(record_text(v)) == Some(v),
{
    lemma_record_plain(v);
    if v.len() > 0 {
        lemma_list_round_trip(v);
    } else {
        assert(v =~= Seq::<u32>::empty());
    }
}

proof fn lemma_line_round_trip(a: Seq<u32>, b: Seq<u32>)
    ensures
        line_of(record_text(a) + seq!['-', '>'] + record_text(b)) == Some((a, b)),
{
    let ra = record_text(a);
    let rb = record_text(b);
    lemma_record_plain(a);
    lemma_record_plain(b);
    let left = ra + seq!['-'];
    assert(!left.contains('>')) by {
        if left.contains('>') {
            let i = choose|i: int| 0 <= i < left.len() && left[i] == '>';
            assert(ra[i] == '>');
        }
    }
    assert(ra + seq!['-', '>'] + rb =~= left + seq!['>'] + rb);
    lemma_split_append(left, '>', rb);
    lemma_split_none(left, '>');
    assert(left.drop_last() =~= ra);
    lemma_list_of_record(a);
    lemma_list_of_record(b);
}

/// The text of one edge without its newline.
pub open spec fn edge_body(e: (Seq<u32>, Seq<u32>)) -> Seq<char> {
    record_text(e.0) + seq!['-', '>'] + record_text(e.1)
}

proof fn lemma_lines_split(d: Seq<(Seq<u32>, Seq<u32>)>, body: Seq<char>)
    requires
        !body.contains('\n'),
    ensures
        split_on(edges_text(d) + body, '\n') == d.map_values(|e: (Seq<u32>, Seq<u32>)| edge_body(e)).push(body),
    decreases d.len(),
{
    let bodies = d.map_values(|e: (Seq<u32>, Seq<u32>)| edge_body(e));
    if d.len() == 0 {
        assert(edges_text(d) + body =~= body);
        lemma_split_none(body, '\n');
        assert(bodies.push(body) =~= seq![body]);
    } else {
        let last = d.last();
        let lb = edge_body(last);
        lemma_record_plain(last.0);
        lemma_record_plain(last.1);
        assert(!lb.contains('\n')) by {
            if lb.contains('\n') {
                let i = choose|i: int| 0 <= i < lb.len() && lb[i] == '\n';
                let ra = record_text(last.0);
                if i < ra.len() {
                    assert(ra[i] == '\n');
                } else if i >= ra.len() + 2 {
                    assert(record_text(last.1)[i - ra.len() - 2] == '\n');
                }
            }
        }
        lemma_lines_split(d.drop_last(), lb);
        assert(edge_line(last.0, last.1) =~= lb + seq!['\n']);
        assert(edges_text(d) + body =~= (edges_text(d.drop_last()) + lb) + seq!['\n'] + body);
        lemma_split_append(edges_text(d.drop_last()) + lb, '\n', body);
        assert(d.drop_last().map_values(|e: (Seq<u32>, Seq<u32>)| edge_body(e)).push(lb) =~= bodies);
    }
}

proof fn lemma_lines_of_bodies(d: Seq<(Seq<u32>, Seq<u32>)>)
    ensures
        lines_of(d.map_values(|e: (Seq<u32>, Seq<u32>)| edge_body(e))) == Some(d),
    decreases d.len(),
{
    let bodies = d.map_values(|e: (Seq<u32>, Seq<u32>)| edge_body(e));
    if d.len() == 0 {
        assert(d =~= Seq::<(Seq<u32>, Seq<u32>)>::empty());
    } else {
        lemma_lines_of_bodies(d.drop_last());
        assert(bodies.drop_last() =~= d.drop_last().map_values(|e: (Seq<u32>, Seq<u32>)| edge_body(e)));
        lemma_line_round_trip(d.last().0, d.last().1);
        assert(d.drop_last().push(d.last()) =~= d);
    }
}

/// Writing edges as text and reading the text back gives the same edges, in
/// the same order.
pub proof fn lemma_edges_round_trip(e: Seq<(Seq<u32>, Seq<u32>)>)
    ensures
        edges_of(edges_text(e)) == Some(e),
{
    assert(edges_text(e) + Seq::<char>::empty() =~= edges_text(e));
    assert(!Seq::<char>::empty().contains('\n'));
    lemma_lines_split(e, Seq::<char>::empty());
    let bodies = e.map_values(|x: (Seq<u32>, Seq<u32>)| edge_body(x));
    assert(bodies.push(Seq::<char>::empty()).drop_last() =~= bodies);
    lemma_lines_of_bodies(e);
}

/// The texts held by a sequence of character vectors.
pub open spec fn char_views(parts: Seq<Vec<char>>) -> Seq<Seq<char>> {
    parts.map_values(|p: Vec<char>| p@)
}

/// `s` split at every occurrence of `c`.
pub fn split_chars(s: &Vec<char>, c: char) -> (r: Vec<Vec<char>>)
    ensures
        char_views(r@) == split_on(s@, c),
{
    let mut parts: Vec<Vec<char>> = Vec::new();
    let mut cur: Vec<char> = Vec::new();
    let mut k: usize = 0;
    assert(s@.subrange(0, 0) =~= Seq::<char>::empty());
    assert(char_views(parts@).push(cur@) =~= split_on(s@.subrange(0, 0), c));
    while k < s.len()
        invariant
            k <= s@.len(),
            char_views(parts@).push(cur@) == split_on(s@.subrange(0, k as int), c),
        decreases s@.len() - k,
    {
        let x = s[k];
        let ghost prev = split_on(s@.subrange(0, k as int), c);
        proof {
            let t = s@.subrange(0, k + 1);
            assert(t.drop_last() =~= s@.subrange(0, k as int));
            assert(t.last() == x);
        }
        if x == c {
            parts.push(cur);
            cur = Vec::new();
            assert(char_views(parts@).push(cur@) =~= prev.push(Seq::<char>::empty()));
        } else {
            cur.push(x);
            assert(char_views(parts@).push(cur@) =~= prev.update(prev.len() - 1, prev.last().push(x)));
        }
        k += 1;
    }
    parts.push(cur);
    assert(s@.subrange(0, s@.len() as int) =~= s@);
    assert(char_views(parts@) =~= split_on(s@, c));
    parts
}

proof fn lemma_digits_value_prefix(t: Seq<char>, m: int)
    requires
        0 <= m <= t.len(),
    ensures
        digits_value(t.subrange(0, m)) <= digits_value(t),
    decreases t.len(),
{
    if m < t.len() {
        lemma_digits_value_prefix(t.drop_last(), m);
        assert(t.drop_last().subrange(0, m) =~= t.subrange(0, m));
    } else {
        assert(t.subrange(0, m) =~= t);
    }
}

/// The number written in `t`, as `str::parse::<u32>` reads it.
pub fn parse_number(t: &Vec<char>) -> (r: Option<u32>)
    ensures
        r == number_of(t@),
{
    let n = t.len();
    let mut start: usize = 0;
    if n > 0 && t[0] == '+' {
        start = 1;
    }
    let ghost body = t@.subrange(start as int, n as int);
    assert(body =~= unsigned_part(t@));
    if start >= n {
        return None;
    }
    let mut v: u32 = 0;
    let mut k: usize = start;
    assert(body.subrange(0, 0) =~= Seq::<char>::empty());
    while k < n
        invariant
            start <= k <= n,
            n == t@.len(),
            body == t@.subrange(start as int, n as int),
            body == unsigned_part(t@),
            v as nat == digits_value(body.subrange(0, k - start)),
            forall|i: int| 0 <= i < k - start ==> is_digit(#[trigger] body[i]),
        decreases n - k,
    {
        let x = t[k];
        let code = x as u32;
        assert(body[k - start] == x);
        if code < 48 || code > 57 {
            assert(!is_digit(body[k - start]));
            let ghost bad = k - start;
            assert(0 <= bad < body.len() && !is_digit(body[bad]));
            assert(!all_digits(body));
            return None;
        }
        let d: u32 = code - 48;
        let ghost pre = body.subrange(0, k - start + 1);
        proof {
            assert(pre.drop_last() =~= body.subrange(0, k - start));
            assert(pre.last() == x);
            assert(digits_value(pre) == v * 10 + d);
        }
        if v > (u32::MAX - d) / 10 {
            proof {
                assert(v * 10 + d > u32::MAX) by (nonlinear_arith)
                    requires
                        v > (u32::MAX - d) / 10,
                        d <= 9,
                ;
                lemma_digits_value_prefix(body, k - start + 1);
                assert(digits_value(body) > u32::MAX);
            }
            return None;
        }
        proof {
            assert(v * 10 + d <= u32::MAX) by (nonlinear_arith)
                requires
                    v <= (u32::MAX - d) / 10,
                    d <= 9,
            ;
        }
        v = v * 10 + d;
        k += 1;
    }
    assert(body.subrange(0, n - start) =~= body);
    Some(v)
}

proof fn lemma_numbers_prefix(fs: Seq<Seq<char>>, k: int)
    requires
        0 <= k <= fs.len(),
        numbers_of(fs.subrange(0, k)) is None,
    ensures
        numbers_of(fs) is None,
    decreases fs.len(),
{
    if k < fs.len() {
        assert(fs.drop_last().subrange(0, k) =~= fs.subrange(0, k));
        lemma_numbers_prefix(fs.drop_last(), k);
    } else {
        assert(fs.subrange(0, k) =~= fs);
    }
}

/// The record written in `line`: numbers separated by single spaces.
pub fn parse_record(line: &Vec<char>) -> (r: Option<Vec<u32>>)
    ensures
        match r {
            Some(v) => record_of(line@) == Some(v@),
            None => record_of(line@) is None,
        },
{
    let fields = split_chars(line, ' ');
    let ghost fs = char_views(fields@);
    let mut out: Vec<u32> = Vec::new();
    let mut k: usize = 0;
    assert(fs.subrange(0, 0) =~= Seq::<Seq<char>>::empty());
    while k < fields.len()
        invariant
            k <= fields@.len(),
            fs == char_views(fields@),
            fs == split_on(line@, ' '),
            numbers_of(fs.subrange(0, k as int)) == Some(out@),
        decreases fields@.len() - k,
    {
        let n = parse_number(&fields[k]);
        proof {
            let pre = fs.subrange(0, k + 1);
            assert(pre.drop_last() =~= fs.subrange(0, k as int));
            assert(pre.last() == fields@[k as int]@);
        }
        match n {
            None => {
                proof {
                    let pre = fs.subrange(0, k + 1);
                    assert(number_of(pre.last()) is None);
                    assert(numbers_of(pre) is None);
                    lemma_numbers_prefix(fs, k + 1);
                    assert(fs == split_on(line@, ' '));
                }
                return None;
            },
            Some(x) => {
                out.push(x);
            },
        }
        k += 1;
    }
    assert(fs.subrange(0, fs.len() as int) =~= fs);
    Some(out)
}

proof fn lemma_list_fields_prefix(fs: Seq<Seq<char>>, k: int)
    requires
        0 <= k <= fs.len(),
        list_fields_of(fs.subrange(0, k)) is None,
    ensures
        list_fields_of(fs) is None,
    decreases fs.len(),
{
    if k < fs.len() {
        assert(fs.drop_last().subrange(0, k) =~= fs.subrange(0, k));
        lemma_list_fields_prefix(fs.drop_last(), k);
    } else {
        assert(fs.subrange(0, k) =~= fs);
    }
}

proof fn lemma_lines_prefix(ls: Seq<Seq<char>>, k: int)
    requires
        0 <= k <= ls.len(),
        lines_of(ls.subrange(0, k)) is None,
    ensures
        lines_of(ls) is None,
    decreases ls.len(),
{
    if k < ls.len() {
        assert(ls.drop_last().subrange(0, k) =~= ls.subrange(0, k));
        lemma_lines_prefix(ls.drop_last(), k);
    } else {
        assert(ls.subrange(0, k) =~= ls);
    }
}

/// The numbers of a ", "-separated list.
fn parse_list(s: &Vec<char>) -> (r: Option<Vec<u32>>)
    ensures
        match r {
            Some(v) => list_of(s@) == Some(v@),
            None => list_of(s@) is None,
        },
{
    if s.len() == 0 {
        return Some(Vec::new());
    }
    let fields = split_chars(s, ',');
    let ghost fs = char_views(fields@);
    let mut out: Vec<u32> = Vec::new();
    let mut k: usize = 0;
    assert(fs.subrange(0, 0) =~= Seq::<Seq<char>>::empty());
    while k < fields.len()
        invariant
            s@.len() > 0,
            k <= fields@.len(),
            fs == char_views(fields@),
            fs == split_on(s@, ','),
            list_fields_of(fs.subrange(0, k as int)) == Some(out@),
        decreases fields@.len() - k,
    {
        let f = &fields[k];
        let n = if k == 0 {
            parse_number(f)
        } else if f.len() > 0 && f[0] == ' ' {
            let mut rest: Vec<char> = Vec::new();
            let mut j: usize = 1;
            while j < f.len()
                invariant
                    1 <= j <= f@.len(),
                    rest@ == f@.subrange(1, j as int),
                decreases f@.len() - j,
            {
                rest.push(f[j]);
                j += 1;
            }
            assert(rest@ =~= f@.drop_first());
            parse_number(&rest)
        } else {
            None
        };
        proof {
            let pre = fs.subrange(0, k + 1);
            assert(pre.drop_last() =~= fs.subrange(0, k as int));
            assert(pre.last() == f@);
            assert(n == list_field_of(pre.last(), pre.len() == 1));
        }
        match n {
            None => {
                proof {
                    lemma_list_fields_prefix(fs, k + 1);
                }
                return None;
            },
            Some(x) => {
                out.push(x);
            },
        }
        k += 1;
    }
    assert(fs.subrange(0, fs.len() as int) =~= fs);
    Some(out)
}

/// The edge written in one line without its newline: a list, "->", a list.
fn parse_edge_line(l: &Vec<char>) -> (r: Option<(Vec<u32>, Vec<u32>)>)
    ensures
        match r {
            Some(e) => line_of(l@) == Some((e.0@, e.1@)),
            None => line_of(l@) is None,
        },
{
    let parts = split_chars(l, '>');
    if parts.len() != 2 {
        return None;
    }
    let left = &parts[0];
    if left.len() == 0 || left[left.len() - 1] != '-' {
        return None;
    }
    let mut a_text: Vec<char> = Vec::new();
    let mut j: usize = 0;
    let end = left.len() - 1;
    while j < end
        invariant
            left@.len() > 0,
            end == left@.len() - 1,
            j <= end,
            a_text@ == left@.subrange(0, j as int),
        decreases left@.len() - j,
    {
        a_text.push(left[j]);
        j += 1;
    }
    assert(a_text@ =~= left@.drop_last());
    let a = parse_list(&a_text);
    let b = parse_list(&parts[1]);
    match (a, b) {
        (Some(a), Some(b)) => Some((a, b)),
        _ => None,
    }
}

/// The edges written in `text`: one per line, each line ended by a newline;
/// `None` if the text is not of that form.
pub fn parse_edges(text: &Vec<char>) -> (r: Option<Vec<(Vec<u32>, Vec<u32>)>>)
    ensures
        match r {
            Some(e) => edges_of(text@) == Some(crate::text::edge_views(e@)),
            None => edges_of(text@) is None,
        },
{
    let lines = split_chars(text, '\n');
    let ghost ls = char_views(lines@);
    proof {
        lemma_split_nonempty(text@, '\n');
    }
    let count = lines.len() - 1;
    if lines[count].len() != 0 {
        return None;
    }
    let ghost body = ls.drop_last();
    let mut out: Vec<(Vec<u32>, Vec<u32>)> = Vec::new();
    let mut k: usize = 0;
    assert(body.subrange(0, 0) =~= Seq::<Seq<char>>::empty());
    assert(crate::text::edge_views(out@) =~= Seq::<(Seq<u32>, Seq<u32>)>::empty());
    while k < count
        invariant
            k <= count,
            count + 1 == lines@.len(),
            ls == char_views(lines@),
            ls == split_on(text@, '\n'),
            body == ls.drop_last(),
            lines_of(body.subrange(0, k as int)) == Some(crate::text::edge_views(out@)),
        decreases count - k,
    {
        let e = parse_edge_line(&lines[k]);
        proof {
            let pre = body.subrange(0, k + 1);
            assert(pre.drop_last() =~= body.subrange(0, k as int));
            assert(pre.last() == lines@[k as int]@);
        }
        match e {
            None => {
                proof {
                    lemma_lines_prefix(body, k + 1);
                }
                return None;
            },
            Some(x) => {
                let ghost before = out@;
                out.push(x);
                proof {
                    assert(crate::text::edge_views(out@) =~= crate::text::edge_views(before).push(
                        (x.0@, x.1@),
                    ));
                }
            },
        }
        k += 1;
    }
    assert(body.subrange(0, body.len() as int) =~= body);
    Some(out)
}

/// `t` with each space that does not follow a ',' written as ", ".
pub open spec fn comma_listed(t: Seq<char>) -> Seq<char>
    decreases t.len(),
{
    if t.len() == 0 {
        Seq::empty()
    } else {
        let d = t.drop_last();
        let c = t.last();
        comma_listed(d) + if c == ' ' && !(d.len() > 0 && d.last() == ',') {
            seq![',', ' ']
        } else {
            seq![c]
        }
    }
}

/// `t` is the text of the record `v`: a line of numbers separated by single
/// spaces that reads as `v`, or the ", "-separated decimals of `v`.
pub open spec fn reads_as(t: Seq<char>, v: Seq<u32>) -> bool {
    record_of(t) == Some(v) || t == record_text(v)
}

/// The fields of `fs` as a ", "-separated list splits them: the first as it
/// is, each other after a space.
pub open spec fn comma_fields(fs: Seq<Seq<char>>) -> Seq<Seq<char>> {
    Seq::new(fs.len(), |i: int| if i == 0 { fs[0] } else { seq![' '] + fs[i] })
}

proof fn lemma_comma_listed_chars(t: Seq<char>, x: char)
    requires
        comma_listed(t).contains(x),
    ensures
        t.contains(x) || x == ',',
    decreases t.len(),
{
    let d = t.drop_last();
    let cl = comma_listed(d);
    let i = choose|i: int| 0 <= i < comma_listed(t).len() && comma_listed(t)[i] == x;
    if i < cl.len() {
        assert(cl[i] == x);
        lemma_comma_listed_chars(d, x);
        if d.contains(x) {
            let j = choose|j: int| 0 <= j < d.len() && d[j] == x;
            assert(t[j] == x);
        }
    } else if x != ',' {
        assert(x == ' ' || x == t.last());
        assert(t[t.len() - 1] == t.last());
    }
}

proof fn lemma_comma_listed_len(t: Seq<char>)
    ensures
        comma_listed(t).len() >= t.len(),
    decreases t.len(),
{
    if t.len() > 0 {
        lemma_comma_listed_len(t.drop_last());
    }
}

/// Every character of `s` other than `c` lies in some part of `split_on(s, c)`.
proof fn lemma_split_covers(s: Seq<char>, c: char, i: int)
    requires
        0 <= i < s.len(),
        s[i] != c,
    ensures
        exists|k: int| 0 <= k < split_on(s, c).len() && (#[trigger] split_on(s, c)[k]).contains(s[i]),
    decreases s.len(),
{
    let d = s.drop_last();
    let r = split_on(d, c);
    lemma_split_nonempty(d, c);
    if i == s.len() - 1 {
        let k = r.len() - 1;
        assert(split_on(s, c)[k] == r.last().push(s.last()));
        assert(split_on(s, c)[k][r.last().len() as int] == s[i]);
    } else {
        assert(d[i] == s[i]);
        lemma_split_covers(d, c, i);
        let k = choose|k: int| 0 <= k < r.len() && (#[trigger] r[k]).contains(d[i]);
        let j = choose|j: int| 0 <= j < r[k].len() && r[k][j] == d[i];
        if s.last() == c {
            assert(split_on(s, c)[k] == r[k]);
        } else if k == r.len() - 1 {
            assert(split_on(s, c)[k][j] == s[i]);
        } else {
            assert(split_on(s, c)[k] == r[k]);
        }
    }
}

proof fn lemma_numbers_each(fs: Seq<Seq<char>>, k: int)
    requires
        numbers_of(fs) is Some,
        0 <= k < fs.len(),
    ensures
        number_of(fs[k]) is Some,
    decreases fs.len(),
{
    if k < fs.len() - 1 {
        lemma_numbers_each(fs.drop_last(), k);
        assert(fs.drop_last()[k] == fs[k]);
    }
}

/// A number's text holds only '+' and digits.
proof fn lemma_number_chars(f: Seq<char>, x: char)
    requires
        number_of(f) is Some,
        f.contains(x),
    ensures
        x == '+' || is_digit(x),
{
    let j = choose|j: int| 0 <= j < f.len() && f[j] == x;
    let body = unsigned_part(f);
    if f.len() > 0 && f[0] == '+' {
        if j > 0 {
            assert(body[j - 1] == x);
        }
    } else {
        assert(body[j] == x);
    }
}

/// A line that reads as a record holds only spaces, '+' and digits.
proof fn lemma_line_chars(line: Seq<char>, x: char)
    requires
        record_of(line) is Some,
        line.contains(x),
    ensures
        x == ' ' || x == '+' || is_digit(x),
{
    let i = choose|i: int| 0 <= i < line.len() && line[i] == x;
    if x != ' ' {
        lemma_split_covers(line, ' ', i);
        let fs = split_on(line, ' ');
        let k = choose|k: int| 0 <= k < fs.len() && (#[trigger] fs[k]).contains(line[i]);
        lemma_numbers_each(fs, k);
        lemma_number_chars(fs[k], x);
    }
}

proof fn lemma_listed_split(t: Seq<char>)
    requires
        !t.contains(','),
    ensures
        split_on(comma_listed(t), ',') == comma_fields(split_on(t, ' ')),
    decreases t.len(),
{
    if t.len() == 0 {
        assert(comma_fields(seq![Seq::<char>::empty()]) =~= seq![Seq::<char>::empty()]);
    } else {
        let d = t.drop_last();
        let c = t.last();
        assert(!d.contains(',')) by {
            if d.contains(',') {
                let j = choose|j: int| 0 <= j < d.len() && d[j] == ',';
                assert(t[j] == ',');
            }
        }
        assert(c != ',') by {
            assert(t[t.len() - 1] == c);
        }
        lemma_listed_split(d);
        lemma_split_nonempty(d, ' ');
        let fs = split_on(d, ' ');
        let cl = comma_listed(d);
        if c == ' ' {
            if d.len() > 0 {
                assert(d[d.len() - 1] == d.last());
            }
            assert(comma_listed(t) =~= cl + seq![','] + seq![' ']);
            assert(!seq![' '].contains(','));
            lemma_split_append(cl, ',', seq![' ']);
            assert(split_on(t, ' ') == fs.push(Seq::<char>::empty()));
            assert(seq![' '] + Seq::<char>::empty() =~= seq![' ']);
            assert(comma_fields(fs.push(Seq::<char>::empty())) =~= comma_fields(fs).push(seq![' ']));
        } else {
            assert(comma_listed(t) =~= cl.push(c));
            assert(cl.push(c).drop_last() =~= cl);
            assert(cl.push(c).last() == c);
            let n = fs.len() - 1;
            let fs1 = fs.update(n, fs.last().push(c));
            assert(split_on(t, ' ') == fs1);
            let r = comma_fields(fs);
            assert(split_on(comma_listed(t), ',') == r.update(r.len() - 1, r.last().push(c)));
            if n == 0 {
                assert(comma_fields(fs1) =~= r.update(r.len() - 1, r.last().push(c)));
            } else {
                assert((seq![' '] + fs.last()).push(c) =~= seq![' '] + fs.last().push(c));
                assert(comma_fields(fs1) =~= r.update(r.len() - 1, r.last().push(c)));
            }
        }
    }
}

proof fn lemma_comma_fields_numbers(fs: Seq<Seq<char>>)
    ensures
        list_fields_of(comma_fields(fs)) == numbers_of(fs),
    decreases fs.len(),
{
    if fs.len() > 0 {
        let d = fs.drop_last();
        lemma_comma_fields_numbers(d);
        let cf = comma_fields(fs);
        assert(cf.drop_last() =~= comma_fields(d));
        if fs.len() > 1 {
            assert(cf.last() == seq![' '] + fs.last());
            assert((seq![' '] + fs.last()).drop_first() =~= fs.last());
        } else {
            assert(cf.last() == fs[0]);
        }
    } else {
        assert(comma_fields(fs) =~= Seq::<Seq<char>>::empty());
    }
}

proof fn lemma_listed_unchanged(t: Seq<char>)
    requires
        forall|i: int| 0 <= i < t.len() && #[trigger] t[i] == ' ' ==> i > 0 && t[i - 1] == ',',
    ensures
        comma_listed(t) == t,
    decreases t.len(),
{
    if t.len() > 0 {
        let d = t.drop_last();
        assert forall|i: int| 0 <= i < d.len() && #[trigger] d[i] == ' ' implies i > 0 && d[i - 1] == ',' by {
            assert(t[i] == d[i]);
        }
        lemma_listed_unchanged(d);
        assert(t[t.len() - 1] == t.last());
        if t.last() == ' ' {
            assert(d[d.len() - 1] == t[t.len() - 2]);
        }
        assert(comma_listed(t) =~= t);
    }
}

proof fn lemma_record_spaces(v: Seq<u32>)
    ensures
        forall|i: int|
            0 <= i < record_text(v).len() && #[trigger] record_text(v)[i] == ' ' ==> i > 0 && record_text(v)[i - 1]
                == ',',
    decreases v.len(),
{
    if v.len() == 1 {
        lemma_decimal_plain(v[0] as nat);
        assert forall|i: int| 0 <= i < record_text(v).len() implies #[trigger] record_text(v)[i] != ' ' by {
            assert(decimal(v[0] as nat).contains(record_text(v)[i]));
        }
    } else if v.len() > 1 {
        let d = v.drop_last();
        lemma_record_spaces(d);
        let r = record_text(d);
        let b = decimal(v.last() as nat);
        lemma_decimal_plain(v.last() as nat);
        let t = record_text(v);
        assert forall|i: int| 0 <= i < t.len() && #[trigger] t[i] == ' ' implies i > 0 && t[i - 1] == ',' by {
            if i < r.len() {
                assert(t[i] == r[i]);
                assert(t[i - 1] == r[i - 1]);
            } else if i >= r.len() + 2 {
                assert(t[i] == b[i - r.len() - 2]);
                assert(b.contains(t[i]));
            }
        }
    }
}

/// The text of a record, its spaces written as ", ", reads back as the
/// record's numbers and holds no '>', newline or '-'.
pub proof fn lemma_listed_side(t: Seq<char>, v: Seq<u32>)
    requires
        reads_as(t, v),
    ensures
        list_of(comma_listed(t)) == Some(v),
        !comma_listed(t).contains('>'),
        !comma_listed(t).contains('\n'),
        !comma_listed(t).contains('-'),
{
    if record_of(t) == Some(v) {
        assert forall|x: char| x == ',' || x == '>' || x == '\n' || x == '-' implies !t.contains(x) by {
            if t.contains(x) {
                lemma_line_chars(t, x);
            }
        }
        lemma_listed_split(t);
        lemma_comma_fields_numbers(split_on(t, ' '));
        if t.len() == 0 {
            assert(split_on(t, ' ') == seq![Seq::<char>::empty()]);
            assert(number_of(Seq::<char>::empty()) is None);
            assert(seq![Seq::<char>::empty()].drop_last() =~= Seq::<Seq<char>>::empty());
        }
        lemma_comma_listed_len(t);
        assert forall|x: char| x == '>' || x == '\n' || x == '-' implies !comma_listed(t).contains(x) by {
            if comma_listed(t).contains(x) {
                lemma_comma_listed_chars(t, x);
            }
        }
    } else {
        lemma_record_spaces(v);
        lemma_listed_unchanged(t);
        lemma_list_of_record(v);
        lemma_record_plain(v);
    }
}

/// Lines of text, each ended by a newline.
pub open spec fn lines_text(bodies: Seq<Seq<char>>) -> Seq<char>
    decreases bodies.len(),
{
    if bodies.len() == 0 {
        Seq::empty()
    } else {
        lines_text(bodies.drop_last()) + bodies.last() + seq!['\n']
    }
}

proof fn lemma_lines_text_split(bodies: Seq<Seq<char>>, tail: Seq<char>)
    requires
        forall|k: int| 0 <= k < bodies.len() ==> !(#[trigger] bodies[k]).contains('\n'),
        !tail.contains('\n'),
    ensures
        split_on(lines_text(bodies) + tail, '\n') == bodies.push(tail),
    decreases bodies.len(),
{
    if bodies.len() == 0 {
        assert(lines_text(bodies) + tail =~= tail);
        lemma_split_none(tail, '\n');
        assert(bodies.push(tail) =~= seq![tail]);
    } else {
        let d = bodies.drop_last();
        assert forall|k: int| 0 <= k < d.len() implies !(#[trigger] d[k]).contains('\n') by {
            assert(d[k] == bodies[k]);
        }
        assert(bodies[bodies.len() - 1] == bodies.last());
        lemma_lines_text_split(d, bodies.last());
        assert(lines_text(bodies) + tail =~= (lines_text(d) + bodies.last()) + seq!['\n'] + tail);
        lemma_split_append(lines_text(d) + bodies.last(), '\n', tail);
        assert(d.push(bodies.last()) =~= bodies);
    }
}

proof fn lemma_lines_of_each(bodies: Seq<Seq<char>>, pairs: Seq<(Seq<u32>, Seq<u32>)>)
    requires
        bodies.len() == pairs.len(),
        forall|k: int| 0 <= k < bodies.len() ==> line_of(#[trigger] bodies[k]) == Some(pairs[k]),
    ensures
        lines_of(bodies) == Some(pairs),
    decreases bodies.len(),
{
    if bodies.len() == 0 {
        assert(pairs =~= Seq::<(Seq<u32>, Seq<u32>)>::empty());
    } else {
        let d = bodies.drop_last();
        let pd = pairs.drop_last();
        assert forall|k: int| 0 <= k < d.len() implies line_of(#[trigger] d[k]) == Some(pd[k]) by {
            assert(d[k] == bodies[k]);
        }
        lemma_lines_of_each(d, pd);
        assert(bodies[bodies.len() - 1] == bodies.last());
        assert(pd.push(pairs.last()) =~= pairs);
    }
}

/// Text made of lines, each of which reads as an edge, reads as those edges.
pub proof fn lemma_lines_text_round_trip(bodies: Seq<Seq<char>>, pairs: Seq<(Seq<u32>, Seq<u32>)>)
    requires
        bodies.len() == pairs.len(),
        forall|k: int| 0 <= k < bodies.len() ==> !(#[trigger] bodies[k]).contains('\n'),
        forall|k: int| 0 <= k < bodies.len() ==> line_of(#[trigger] bodies[k]) == Some(pairs[k]),
    ensures
        edges_of(lines_text(bodies)) == Some(pairs),
{
    assert(!Seq::<char>::empty().contains('\n'));
    lemma_lines_text_split(bodies, Seq::<char>::empty());
    assert(lines_text(bodies) + Seq::<char>::empty() =~= lines_text(bodies));
    assert(bodies.push(Seq::<char>::empty()).drop_last() =~= bodies);
    lemma_lines_of_each(bodies, pairs);
}

/// Two sides without '>', newline or '-' that read as lists, joined by "->",
/// read as the edge of those lists.
pub proof fn lemma_edge_body(ta: Seq<char>, tb: Seq<char>, a: Seq<u32>, b: Seq<u32>)
    requires
        list_of(ta) == Some(a),
        list_of(tb) == Some(b),
        !ta.contains('>') && !ta.contains('\n') && !ta.contains('-'),
        !tb.contains('>') && !tb.contains('\n'),
    ensures
        line_of(ta + seq!['-', '>'] + tb) == Some((a, b)),
        !(ta + seq!['-', '>'] + tb).contains('\n'),
{
    let left = ta + seq!['-'];
    assert(!left.contains('>')) by {
        if left.contains('>') {
            let i = choose|i: int| 0 <= i < left.len() && left[i] == '>';
            assert(ta[i] == '>');
        }
    }
    assert(ta + seq!['-', '>'] + tb =~= left + seq!['>'] + tb);
    lemma_split_append(left, '>', tb);
    lemma_split_none(left, '>');
    assert(left.drop_last() =~= ta);
    let whole = ta + seq!['-', '>'] + tb;
    assert(!whole.contains('\n')) by {
        if whole.contains('\n') {
            let i = choose|i: int| 0 <= i < whole.len() && whole[i] == '\n';
            if i < ta.len() {
                assert(ta[i] == '\n');
            } else if i >= ta.len() + 2 {
                assert(tb[i - ta.len() - 2] == '\n');
            }
        }
    }
}

} // verus!
