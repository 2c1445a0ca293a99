use vstd::prelude::*;
use vstd::string::{StrSliceExecFns, StringExecFns};

use crate::text::{decimal, push_decimal};

verus! {

/// A labelled tree node: each sequence added to it is stored as a downward
/// path, sharing the labels of an existing path as long as they agree.
pub struct Node {
    /// This node's label.
    pub payload: i64,
    /// The subtrees below this node.
    pub children: Vec<Node>,
}

/// `w` is a prefix of `p`.
pub open spec fn label_prefix(w: Seq<i64>, p: Seq<i64>) -> bool {
    w.len() <= p.len() && p.subrange(0, w.len() as int) == w
}

/// A label in decimal, with a leading '-' when negative.
pub open spec fn label_text(x: i64) -> Seq<char> {
    if x < 0 {
        seq!['-'] + decimal((-x) as nat)
    } else {
        decimal(x as nat)
    }
}

/// `w` with each newline followed by `with`.
pub open spec fn indent_lines(w: Seq<char>, with: Seq<char>) -> Seq<char>
    decreases w.len(),
{
    if w.len() == 0 {
        Seq::empty()
    } else {
        indent_lines(w.drop_last(), with) + if w.last() == '\n' {
            seq!['\n'] + with
        } else {
            seq![w.last()]
        }
    }
}

/// `what` on a new line after `with`, with every line of it indented by `with`.
pub open spec fn indent_text(what: Seq<char>, with: Seq<char>) -> Seq<char> {
    seq!['\n'] + with + indent_lines(what, with)
}

/// The text of a node: its label, then each child's text indented by "----".
pub open spec fn node_text(n: Node) -> Seq<char>
    decreases n, n.children@.len() + 1,
{
    label_text(n.payload) + children_text(n, n.children@.len() as int)
}

/// The indented texts of the first `k` children of `n`.
pub open spec fn children_text(n: Node, k: int) -> Seq<char>
    decreases n, k,
{
    if k <= 0 || k > n.children@.len() {
        Seq::empty()
    } else {
        children_text(n, k - 1) + indent_text(node_text(n.children@[k - 1]), seq!['-', '-', '-', '-'])
    }
}

/// The index of the first node of `cs` labelled `x`, or -1 if there is none.
pub open spec fn first_child_with(cs: Seq<Node>, x: i64) -> int
    decreases cs.len(),
{
    if cs.len() == 0 {
        -1
    } else {
        let f = first_child_with(cs.drop_last(), x);
        if f >= 0 {
            f
        } else if cs.last().payload == x {
            cs.len() - 1
        } else {
            -1
        }
    }
}

/// Below `n` hangs one chain of single children reading `p`, and nothing else.
pub open spec fn is_chain(n: Node, p: Seq<i64>) -> bool
    decreases p.len(),
{
    if p.len() == 0 {
        n.children@.len() == 0
    } else {
        n.children@.len() == 1 && n.children@[0].payload == p[0] && is_chain(n.children@[0], p.drop_first())
    }
}

/// `new` is `old` with `p` added: at each level the first child carrying the
/// next label is followed; where none does, a chain reading the rest of `p` is
/// appended as the last child. Nothing else changes.
pub open spec fn added(old: Node, new: Node, p: Seq<i64>) -> bool
    decreases p.len(),
{
    &&& new.payload == old.payload
    &&& if p.len() == 0 {
        new.children@ == old.children@
    } else {
        let i = first_child_with(old.children@, p[0]);
        if i >= 0 {
            &&& new.children@.len() == old.children@.len()
            &&& forall|j: int|
                0 <= j < old.children@.len() && j != i ==> #[trigger] new.children@[j] == old.children@[j]
            &&& added(old.children@[i], new.children@[i], p.drop_first())
        } else {
            &&& new.children@.len() == old.children@.len() + 1
            &&& forall|j: int| 0 <= j < old.children@.len() ==> #[trigger] new.children@[j] == old.children@[j]
            &&& new.children@.last().payload == p[0]
            &&& is_chain(new.children@.last(), p.drop_first())
        }
    }
}

proof fn lemma_first_child_with(cs: Seq<Node>, x: i64, i: int)
    requires
        -1 <= i < cs.len(),
        i >= 0 ==> cs[i].payload == x,
        forall|j: int| 0 <= j < cs.len() && (i < 0 || j < i) ==> #[trigger] cs[j].payload != x,
    ensures
        first_child_with(cs, x) == i,
    decreases cs.len(),
{
    if cs.len() > 0 {
        let d = cs.drop_last();
        if i == cs.len() - 1 {
            lemma_first_child_with(d, x, -1);
        } else {
            lemma_first_child_with(d, x, i);
            if i < 0 {
                assert(cs[cs.len() - 1].payload != x);
            }
        }
    }
}

proof fn lemma_chain_of_leaf(n: Node, m: Node, q: Seq<i64>)
    requires
        n.children@.len() == 0,
        added(n, m, q),
    ensures
        is_chain(m, q),
{
    if q.len() == 0 {
    } else {
        assert(first_child_with(n.children@, q[0]) == -1);
        assert(m.children@.last() == m.children@[0]);
    }
}

impl Node {
    /// Some downward walk from this node, not counting its own label, reads `w`.
    pub open spec fn has_walk(&self, w: Seq<i64>) -> bool
        decreases self, w.len(),
    {
        w.len() == 0 || exists|i: int|
            0 <= i < self.children@.len() && #[trigger] self.children@[i].payload == w[0]
                && self.children@[i].has_walk(w.drop_first())
    }

    /// The first child labelled `item`, if any.
    fn get_matching(&mut self, item: i64) -> (r: Option<&mut Node>)
        ensures
            final(self).payload == old(self).payload,
            match r {
                Some(c) => exists|i: int|
                    0 <= i < old(self).children@.len() && old(self).children@[i].payload == item
                        && (forall|j: int| 0 <= j < i ==> #[trigger] old(self).children@[j].payload != item)
                        && *c == old(self).children@[i] && final(self).children@ == old(
                        self,
                    ).children@.update(i, *final(c)),
                None => {
                    &&& forall|i: int|
                        0 <= i < old(self).children@.len() ==> #[trigger] old(self).children@[i].payload
                            != item
                    &&& *final(self) == *old(self)
                },
            },
    {
        let mut i: usize = 0;
        while i < self.children.len()
            invariant
                *self == *old(self),
                i <= self.children@.len(),
                forall|j: int| 0 <= j < i ==> #[trigger] self.children@[j].payload != item,
            decreases self.children@.len() - i,
        {
            if self.children[i].payload == item {
                return Some(&mut self.children[i]);
            }
            i += 1;
        }
        None
    }

    /// Stores `p[k..]` as a downward path below this node, reusing the first
    /// matching child at each step.
    fn add_from(&mut self, p: &Vec<i64>, k: usize)
        requires
            k <= p@.len(),
        ensures
            final(self).payload == old(self).payload,
            added(*old(self), *final(self), p@.subrange(k as int, p@.len() as int)),
            forall|w: Seq<i64>|
                #[trigger] final(self).has_walk(w) <==> old(self).has_walk(w) || label_prefix(
                    w,
                    p@.subrange(k as int, p@.len() as int),
                ),
        decreases p@.len() - k,
    {
        let ghost rest = p@.subrange(k as int, p@.len() as int);
        if k >= p.len() {
            proof {
                assert forall|w: Seq<i64>| label_prefix(w, rest) implies self.has_walk(w) by {
                    assert(w.len() == 0);
                }
            }
            return;
        }
        let next = p[k];
        let ghost old_node = *self;
        let ghost rest1 = p@.subrange(k + 1, p@.len() as int);
        match self.get_matching(next) {
            None => {
                let mut child = Node { payload: next, children: Vec::new() };
                let ghost fresh = child;
                child.add_from(p, k + 1);
                let ghost c1 = child;
                self.children.push(child);
                proof {
                    let n = old_node.children@.len() as int;
                    assert(self.children@ == old_node.children@.push(c1));
                    lemma_first_child_with(old_node.children@, next, -1);
                    assert(rest.drop_first() =~= rest1);
                    assert(rest[0] == next);
                    lemma_chain_of_leaf(fresh, c1, rest1);
                    assert(self.children@.last() == c1);
                    assert(added(old_node, *self, rest));
                    assert forall|w: Seq<i64>|
                        #[trigger] self.has_walk(w) <==> old_node.has_walk(w) || label_prefix(w, rest) by {
                        if w.len() > 0 {
                            lemma_prefix_step(w, p@, k as int);
                            let w1 = w.drop_first();
                            if self.has_walk(w) {
                                let i = choose|i: int|
                                    0 <= i < self.children@.len() && #[trigger] self.children@[i].payload == w[0]
                                        && self.children@[i].has_walk(w.drop_first());
                                if i < n {
                                    assert(self.children@[i] == old_node.children@[i]);
                                    assert(old_node.children@[i].payload == w[0]);
                                    assert(old_node.has_walk(w));
                                } else {
                                    assert(self.children@[i] == c1);
                                    assert(c1.has_walk(w1));
                                    if w1.len() > 0 {
                                        assert(fresh.children@.len() == 0);
                                        assert(!fresh.has_walk(w1));
                                    } else {
                                        assert(rest1.subrange(0, 0) =~= w1);
                                    }
                                    assert(label_prefix(w1, rest1));
                                    assert(label_prefix(w, rest));
                                }
                            }
                            if old_node.has_walk(w) {
                                let i = choose|i: int|
                                    0 <= i < old_node.children@.len() && #[trigger] old_node.children@[i].payload == w[0]
                                        && old_node.children@[i].has_walk(w.drop_first());
                                assert(self.children@[i] == old_node.children@[i]);
                                assert(self.children@[i].payload == w[0]);
                            }
                            if label_prefix(w, rest) {
                                assert(self.children@[n] == c1);
                                assert(c1.has_walk(w1));
                                assert(self.children@[n].payload == w[0]);
                            }
                        }
                    }
                }
            },
            Some(child) => {
                let ghost c0 = *child;
                child.add_from(p, k + 1);
                let ghost c1 = *child;
                proof {
                    let i = choose|i: int|
                        0 <= i < old_node.children@.len() && old_node.children@[i].payload == next
                            && (forall|j: int| 0 <= j < i ==> #[trigger] old_node.children@[j].payload != next)
                            && c0 == old_node.children@[i] && self.children@ == old_node.children@.update(i, c1);
                    lemma_first_child_with(old_node.children@, next, i);
                    assert(rest.drop_first() =~= rest1);
                    assert(rest[0] == next);
                    assert(self.children@[i] == c1);
                    assert(added(old_node, *self, rest));
                    assert forall|w: Seq<i64>|
                        #[trigger] self.has_walk(w) <==> old_node.has_walk(w) || label_prefix(w, rest) by {
                        if w.len() > 0 {
                            lemma_prefix_step(w, p@, k as int);
                            let w1 = w.drop_first();
                            if self.has_walk(w) {
                                let j = choose|j: int|
                                    0 <= j < self.children@.len() && #[trigger] self.children@[j].payload == w[0]
                                        && self.children@[j].has_walk(w.drop_first());
                                if j != i {
                                    assert(self.children@[j] == old_node.children@[j]);
                                    assert(old_node.children@[j].payload == w[0]);
                                } else {
                                    assert(self.children@[j] == c1);
                                    if c0.has_walk(w1) {
                                        assert(old_node.children@[i].payload == w[0]);
                                    } else {
                                        assert(label_prefix(w1, rest1));
                                    }
                                }
                            }
                            if old_node.has_walk(w) {
                                let j = choose|j: int|
                                    0 <= j < old_node.children@.len() && #[trigger] old_node.children@[j].payload == w[0]
                                        && old_node.children@[j].has_walk(w.drop_first());
                                if j != i {
                                    assert(self.children@[j] == old_node.children@[j]);
                                    assert(self.children@[j].payload == w[0]);
                                } else {
                                    assert(c1.has_walk(w1));
                                    assert(self.children@[i].payload == w[0]);
                                }
                            }
                            if label_prefix(w, rest) {
                                assert(c1.has_walk(w1));
                                assert(self.children@[i] == c1);
                                assert(self.children@[i].payload == w[0]);
                            }
                        }
                    }
                }
            },
        }
    }

    /// Stores `p` as a downward path below this node.
    pub fn add(&mut self, p: &Vec<i64>)
        ensures
            final(self).payload == old(self).payload,
            added(*old(self), *final(self), p@),
            forall|w: Seq<i64>|
                #[trigger] final(self).has_walk(w) <==> old(self).has_walk(w) || label_prefix(w, p@),
    {
        self.add_from(p, 0);
        assert(p@.subrange(0, p@.len() as int) =~= p@);
    }
}

proof fn lemma_prefix_step(w: Seq<i64>, p: Seq<i64>, k: int)
    requires
        0 <= k < p.len(),
        w.len() > 0,
    ensures
        label_prefix(w, p.subrange(k, p.len() as int)) <==> (w[0] == p[k] && label_prefix(
            w.drop_first(),
            p.subrange(k + 1, p.len() as int),
        )),
{
    let r = p.subrange(k, p.len() as int);
    let r1 = p.subrange(k + 1, p.len() as int);
    if label_prefix(w, r) {
        assert(w[0] == r.subrange(0, w.len() as int)[0]);
        assert(r1.subrange(0, w.len() - 1) =~= w.drop_first()) by {
            assert forall|j: int| 0 <= j < w.len() - 1
                implies r1.subrange(0, w.len() - 1)[j] == w.drop_first()[j] by {
                assert(r.subrange(0, w.len() as int)[j + 1] == w[j + 1]);
            }
        }
    }
    if w[0] == p[k] && label_prefix(w.drop_first(), r1) {
        assert(r.subrange(0, w.len() as int) =~= w) by {
            assert forall|j: int| 0 <= j < w.len() implies r.subrange(0, w.len() as int)[j] == w[j] by {
                if j > 0 {
                    assert(r1.subrange(0, w.len() - 1)[j - 1] == w.drop_first()[j - 1]);
                }
            }
        }
    }
}

/// Appends the text of label `x` to `out`.
fn push_label(out: &mut String, x: i64)
    ensures
        final(out)@ == old(out)@ + label_text(x),
{
    if x < 0 {
        proof { reveal_strlit("-"); }
        out.append("-");
        let magnitude: u64 = ((-(x + 1)) as u64) + 1;
        assert(magnitude as nat == (-x) as nat);
        push_decimal(out, magnitude);
    } else {
        push_decimal(out, x as u64);
    }
    assert(final(out)@ =~= old(out)@ + label_text(x));
}

/// `what` on a new line after `with`, every line of it indented by `with`.
pub fn indent(what: String, with: String) -> (r: String)
    ensures
        r@ == indent_text(what@, with@),
{
    let mut q = String::new();
    proof { reveal_strlit("\n"); }
    q.append("\n");
    q.append(with.as_str());
    let mut out = q.clone();
    let w = what.as_str();
    let n = w.unicode_len();
    let mut i: usize = 0;
    assert(w@.subrange(0, 0) =~= Seq::<char>::empty());
    while i < n
        invariant
            n == w@.len(),
            w@ == what@,
            i <= n,
            q@ == seq!['\n'] + with@,
            out@ == q@ + indent_lines(w@.subrange(0, i as int), with@),
        decreases n - i,
    {
        let c = w.get_char(i);
        let ghost before = out@;
        if c == '\n' {
            out.append(q.as_str());
        } else {
            out.append(w.substring_char(i, i + 1));
        }
        proof {
            let pre = w@.subrange(0, i + 1);
            assert(pre.drop_last() =~= w@.subrange(0, i as int));
            assert(pre.last() == c);
            assert(w@.subrange(i as int, i + 1) =~= seq![c]);
            assert(out@ =~= q@ + indent_lines(pre, with@));
        }
        i += 1;
    }
    assert(w@.subrange(0, n as int) =~= w@);
    assert(out@ =~= indent_text(what@, with@));
    out
}

impl Node {
    /// The label, then each child's text on the following lines, indented by "----".
    pub fn as_string(&self) -> (r: String)
        ensures
            r@ == node_text(*self),
        decreases self,
    {
        let mut s = String::new();
        push_label(&mut s, self.payload);
        assert(s@ =~= label_text(self.payload));
        if self.children.len() == 0 {
            assert(children_text(*self, 0) =~= Seq::<char>::empty());
            assert(s@ =~= node_text(*self));
            return s;
        }
        let mut k: usize = 0;
        assert(label_text(self.payload) + children_text(*self, 0) =~= label_text(self.payload));
        while k < self.children.len()
            invariant
                k <= self.children@.len(),
                s@ == label_text(self.payload) + children_text(*self, k as int),
            decreases self.children@.len() - k,
        {
            let child = &self.children[k];
            assert(decreases_to!(*self => self.children@[k as int])) by {
                assert(decreases_to!(*self => self.children));
                assert(decreases_to!(self.children => self.children@[k as int]));
            }
            let text = child.as_string();
            proof { reveal_strlit("----"); }
            let dashes = String::from_str("----");
            assert(dashes@ =~= seq!['-', '-', '-', '-']);
            let part = indent(text, dashes);
            s.append(part.as_str());
            assert(children_text(*self, k + 1) == children_text(*self, k as int) + indent_text(
                node_text(self.children@[k as int]),
                seq!['-', '-', '-', '-'],
            ));
            assert(s@ =~= label_text(self.payload) + children_text(*self, k + 1));
            k += 1;
        }
        s
    }
}

} // verus!
