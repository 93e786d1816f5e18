//! The prefix encoding of expression trees as flat node sequences, and the
//! subtree addressing every structural operator relies on.
use vstd::prelude::*;

use crate::node::{arity_of, Node};

verus! {

/// Subtrees still owed, less one, after reading `s` from the start of a tree:
/// each node adds its arity and uses up one place.
pub open spec fn balance(s: Seq<Node>) -> int
    decreases s.len(),
{
    if s.len() == 0 {
        0
    } else {
        balance(s.drop_last()) + arity_of(s.last()) - 1
    }
}

/// `t` is exactly one complete tree in prefix order: every function node is followed
/// by its operand subtrees, and nothing is left over.
pub open spec fn is_tree(t: Seq<Node>) -> bool {
    &&& balance(t) == -1
    &&& forall|m: int| 0 < m < t.len() ==> balance(#[trigger] t.take(m)) >= 0
}

/// The length of the tree that `t` starts with.
pub open spec fn first_tree_len(t: Seq<Node>) -> int {
    choose|n: int| 0 < n <= t.len() && is_tree(#[trigger] t.take(n))
}

/// The number of nodes of the subtree of `s` that starts at `i`.
pub open spec fn subtree_size(s: Seq<Node>, i: int) -> int {
    first_tree_len(s.skip(i))
}

/// The greatest depth of a leaf of tree `t` (the root stands at depth 0).
pub open spec fn tree_height(t: Seq<Node>) -> nat
    decreases t.len(),
{
    if t.len() == 0 || arity_of(t[0]) == 0 {
        0
    } else {
        let rest = t.skip(1);
        let n = first_tree_len(rest);
        if !(0 < n <= rest.len()) {
            0
        } else if arity_of(t[0]) == 1 {
            1 + tree_height(rest.take(n))
        } else {
            let a = tree_height(rest.take(n));
            let b = tree_height(rest.skip(n));
            1 + if a >= b {
                a
            } else {
                b
            }
        }
    }
}

/// The least depth of a leaf of tree `t`.
pub open spec fn tree_floor(t: Seq<Node>) -> nat
    decreases t.len(),
{
    if t.len() == 0 || arity_of(t[0]) == 0 {
        0
    } else {
        let rest = t.skip(1);
        let n = first_tree_len(rest);
        if !(0 < n <= rest.len()) {
            0
        } else if arity_of(t[0]) == 1 {
            1 + tree_floor(rest.take(n))
        } else {
            let a = tree_floor(rest.take(n));
            let b = tree_floor(rest.skip(n));
            1 + if a <= b {
                a
            } else {
                b
            }
        }
    }
}

/// The decimal digit for `d` (below ten).
pub open spec fn digit_char(d: nat) -> char {
    if d == 0 { '0' } else if d == 1 { '1' } else if d == 2 { '2' } else if d == 3 { '3' }
    else if d == 4 { '4' } else if d == 5 { '5' } else if d == 6 { '6' } else if d == 7 { '7' }
    else if d == 8 { '8' } else { '9' }
}

/// `n` in decimal, without leading zeros.
pub open spec fn decimal(n: nat) -> Seq<char>
    decreases n,
{
    if n < 10 {
        seq![digit_char(n)]
    } else {
        decimal(n / 10).push(digit_char(n % 10))
    }
}

/// The last `width` decimal digits of `n`, padded with zeros.
pub open spec fn padded(n: nat, width: nat) -> Seq<char>
    decreases width,
{
    if width == 0 {
        Seq::empty()
    } else {
        padded(n / 10, (width - 1) as nat).push(digit_char(n % 10))
    }
}

/// A constant held in billionths, as a signed decimal with nine places, in parentheses.
pub open spec fn constant_text(c: i32) -> Seq<char> {
    let m: nat = if c < 0 { (-c) as nat } else { c as nat };
    let sign: Seq<char> = if c < 0 { seq!['-'] } else { Seq::empty() };
    seq!['('] + sign + decimal(m / 1_000_000_000) + seq!['.'] + padded(m % 1_000_000_000, 9)
        + seq![')']
}

/// How a node reads: an operator between its operands, a function name before its
/// parenthesised operand, or the terminal itself.
pub open spec fn node_text(n: Node) -> Seq<char> {
    match n {
        Node::Addition => seq![' ', '+', ' '],
        Node::Subtraction => seq![' ', '-', ' '],
        Node::Multiplication => seq![' ', '*', ' '],
        Node::Division => seq![' ', '/', ' '],
        Node::Sine => seq!['s', 'i', 'n'],
        Node::Ln => seq!['l', 'n'],
        Node::Square => seq!['s', 'q', 'u', 'a', 'r', 'e'],
        Node::Input(j) => seq!['x'] + decimal(j as nat),
        Node::Constant(c) => constant_text(c),
    }
}

/// Tree `t` as fully parenthesised text.
pub open spec fn render_tree(t: Seq<Node>) -> Seq<char>
    decreases t.len(),
{
    if t.len() == 0 {
        Seq::empty()
    } else if arity_of(t[0]) == 0 {
        node_text(t[0])
    } else {
        let rest = t.skip(1);
        let n = first_tree_len(rest);
        if !(0 < n <= rest.len()) {
            Seq::empty()
        } else if arity_of(t[0]) == 1 {
            node_text(t[0]) + seq!['('] + render_tree(rest.take(n)) + seq![')']
        } else {
            seq!['('] + render_tree(rest.take(n)) + node_text(t[0]) + render_tree(rest.skip(n))
                + seq![')']
        }
    }
}

pub proof fn lemma_balance_concat(a: Seq<Node>, b: Seq<Node>)
    ensures
        balance(a + b) == balance(a) + balance(b),
    decreases b.len(),
{
    if b.len() > 0 {
        assert((a + b).drop_last() =~= a + b.drop_last());
        assert((a + b).last() == b.last());
        lemma_balance_concat(a, b.drop_last());
    } else {
        assert(a + b =~= a);
    }
}

pub proof fn lemma_balance_split(s: Seq<Node>, i: int, j: int, k: int)
    requires
        0 <= i <= j <= k <= s.len(),
    ensures
        balance(s.subrange(i, k)) == balance(s.subrange(i, j)) + balance(s.subrange(j, k)),
{
    assert(s.subrange(i, k) =~= s.subrange(i, j) + s.subrange(j, k));
    lemma_balance_concat(s.subrange(i, j), s.subrange(j, k));
}

pub proof fn lemma_balance_single(n: Node)
    ensures
        balance(seq![n]) == arity_of(n) - 1,
{
    assert(seq![n].drop_last() =~= Seq::<Node>::empty());
    assert(seq![n].last() == n);
    assert(balance(Seq::<Node>::empty()) == 0);
}

/// A sequence starts with at most one tree: two prefixes that are trees are the same.
pub proof fn lemma_tree_prefix_unique(t: Seq<Node>, n1: int, n2: int)
    requires
        0 < n1 <= t.len(),
        0 < n2 <= t.len(),
        is_tree(t.take(n1)),
        is_tree(t.take(n2)),
    ensures
        n1 == n2,
{
    if n1 < n2 {
        assert(t.take(n2).take(n1) =~= t.take(n1));
    } else if n2 < n1 {
        assert(t.take(n1).take(n2) =~= t.take(n2));
    }
}

pub proof fn lemma_first_tree_len(t: Seq<Node>, n: int)
    requires
        0 < n <= t.len(),
        is_tree(t.take(n)),
    ensures
        first_tree_len(t) == n,
{
    let m = first_tree_len(t);
    assert(0 < m <= t.len() && is_tree(t.take(m)));
    lemma_tree_prefix_unique(t, n, m);
}

/// In a tree, the part from any position to the end owes more than it holds.
pub proof fn lemma_suffix_owes(s: Seq<Node>, i: int)
    requires
        is_tree(s),
        0 <= i < s.len(),
    ensures
        balance(s.subrange(i, s.len() as int)) < 0,
{
    lemma_balance_split(s, 0, i, s.len() as int);
    assert(s.subrange(0, s.len() as int) =~= s);
    assert(s.subrange(0, i) =~= s.take(i));
    if i == 0 {
        assert(s.take(0) =~= Seq::<Node>::empty());
    }
}

/// A unary node followed by a tree is a tree.
pub proof fn lemma_join_unary(f: Node, c: Seq<Node>)
    requires
        arity_of(f) == 1,
        is_tree(c),
    ensures
        is_tree(seq![f] + c),
        tree_height(seq![f] + c) == 1 + tree_height(c),
        tree_floor(seq![f] + c) == 1 + tree_floor(c),
        render_tree(seq![f] + c) == node_text(f) + seq!['('] + render_tree(c) + seq![')'],
{
    let t = seq![f] + c;
    lemma_balance_single(f);
    lemma_balance_concat(seq![f], c);
    assert forall|m: int| 0 < m < t.len() implies balance(#[trigger] t.take(m)) >= 0 by {
        assert(t.take(m) =~= seq![f] + c.take(m - 1));
        lemma_balance_concat(seq![f], c.take(m - 1));
        if m == 1 {
            assert(c.take(0) =~= Seq::<Node>::empty());
        }
    }
    assert(t.skip(1) =~= c);
    assert(c.take(c.len() as int) =~= c);
    lemma_first_tree_len(c, c.len() as int);
}

/// A binary node followed by two trees is a tree.
pub proof fn lemma_join_binary(f: Node, c1: Seq<Node>, c2: Seq<Node>)
    requires
        arity_of(f) == 2,
        is_tree(c1),
        is_tree(c2),
    ensures
        is_tree(seq![f] + c1 + c2),
        tree_height(seq![f] + c1 + c2) == 1 + if tree_height(c1) >= tree_height(c2) {
            tree_height(c1)
        } else {
            tree_height(c2)
        },
        tree_floor(seq![f] + c1 + c2) == 1 + if tree_floor(c1) <= tree_floor(c2) {
            tree_floor(c1)
        } else {
            tree_floor(c2)
        },
        render_tree(seq![f] + c1 + c2) == seq!['('] + render_tree(c1) + node_text(f)
            + render_tree(c2) + seq![')'],
{
    let t = seq![f] + c1 + c2;
    lemma_balance_single(f);
    lemma_balance_concat(seq![f], c1);
    lemma_balance_concat(seq![f] + c1, c2);
    assert forall|m: int| 0 < m < t.len() implies balance(#[trigger] t.take(m)) >= 0 by {
        if m <= 1 + c1.len() {
            assert(t.take(m) =~= seq![f] + c1.take(m - 1));
            lemma_balance_concat(seq![f], c1.take(m - 1));
            if m == 1 {
                assert(c1.take(0) =~= Seq::<Node>::empty());
            }
            if m - 1 == c1.len() {
                assert(c1.take(m - 1) =~= c1);
            }
        } else {
            let k = m - 1 - c1.len();
            assert(t.take(m) =~= (seq![f] + c1) + c2.take(k));
            lemma_balance_concat(seq![f] + c1, c2.take(k));
        }
    }
    let rest = t.skip(1);
    assert(rest =~= c1 + c2);
    assert(rest.take(c1.len() as int) =~= c1);
    assert(rest.skip(c1.len() as int) =~= c2);
    lemma_first_tree_len(rest, c1.len() as int);
}

/// A terminal alone is a tree of height 0.
pub proof fn lemma_leaf(n: Node)
    requires
        arity_of(n) == 0,
    ensures
        is_tree(seq![n]),
        tree_height(seq![n]) == 0,
        tree_floor(seq![n]) == 0,
        render_tree(seq![n]) == node_text(n),
{
    lemma_balance_single(n);
}

/// The number of nodes in the subtree that starts at `start`, counted child by child:
/// the first child starts right after the root, each next one right after the previous
/// child's subtree ends.
pub fn subtree_len(s: &Vec<Node>, start: usize) -> (r: usize)
    requires
        start < s@.len(),
        balance(s@.subrange(start as int, s@.len() as int)) < 0,
    ensures
        0 < r <= s@.len() - start,
        is_tree(s@.subrange(start as int, start + r)),
    decreases s@.len() - start,
{
    let ghost q = s@;
    let ghost i = start as int;
    let total = s.len();
    let ghost len = q.len() as int;
    let a = s[start].arity();
    proof {
        assert(q.subrange(i, i + 1) =~= seq![q[i]]);
        lemma_balance_single(q[i]);
    }
    let mut n: usize = 1;
    let mut c: usize = 0;
    while c < a
        invariant
            q == s@,
            i == start,
            len == q.len(),
            len == total,
            start < len,
            balance(q.subrange(i, len)) < 0,
            a == arity_of(q[i]),
            a <= 2,
            c <= a,
            1 <= n <= len - i,
            balance(q.subrange(i, i + n)) == a - 1 - c,
            forall|k: int| 0 < k < n ==> balance(#[trigger] q.subrange(i, i + k)) >= a - c,
        decreases a - c,
    {
        let p = start + n;
        proof {
            if p == len {
                assert(q.subrange(i, i + n) =~= q.subrange(i, len));
            }
            lemma_balance_split(q, i, p as int, len);
        }
        let m = subtree_len(s, p);
        proof {
            lemma_balance_split(q, i, p as int, p + m);
            assert forall|k: int| 0 < k < n + m implies balance(
                #[trigger] q.subrange(i, i + k),
            ) >= a - (c + 1) by {
                if k > n {
                    lemma_balance_split(q, i, p as int, i + k);
                    assert(q.subrange(p as int, p + m).take(k - n) =~= q.subrange(
                        p as int,
                        i + k,
                    ));
                }
            }
        }
        n = n + m;
        c = c + 1;
    }
    proof {
        let t = q.subrange(i, i + n);
        assert forall|k: int| 0 < k < t.len() implies balance(#[trigger] t.take(k)) >= 0 by {
            assert(t.take(k) =~= q.subrange(i, i + k));
        }
    }
    n
}

/// The size and the height of the subtree that starts at `start`.
pub fn subtree_shape(s: &Vec<Node>, start: usize) -> (r: (usize, usize))
    requires
        start < s@.len(),
        balance(s@.subrange(start as int, s@.len() as int)) < 0,
    ensures
        0 < r.0 <= s@.len() - start,
        is_tree(s@.subrange(start as int, start + r.0)),
        r.1 == tree_height(s@.subrange(start as int, start + r.0)),
        r.1 < r.0,
    decreases s@.len() - start,
{
    let ghost q = s@;
    let ghost i = start as int;
    let total = s.len();
    let ghost len = q.len() as int;
    let a = s[start].arity();
    if a == 0 {
        proof {
            assert(q.subrange(i, i + 1) =~= seq![q[i]]);
            lemma_leaf(q[i]);
        }
        return (1, 0);
    }
    proof {
        lemma_balance_single(q[i]);
        assert(q.subrange(i, i + 1) =~= seq![q[i]]);
        lemma_balance_split(q, i, i + 1, len);
    }
    let (m1, h1) = subtree_shape(s, start + 1);
    let ghost c1 = q.subrange(i + 1, i + 1 + m1);
    if a == 1 {
        proof {
            assert(q.subrange(i, i + 1 + m1) =~= seq![q[i]] + c1);
            lemma_join_unary(q[i], c1);
        }
        return (1 + m1, 1 + h1);
    }
    let p = start + 1 + m1;
    proof {
        lemma_balance_split(q, i + 1, p as int, len);
        lemma_balance_split(q, i, i + 1, len);
        if p == len {
            assert(q.subrange(i + 1, p as int) =~= q.subrange(i + 1, len));
        }
    }
    let (m2, h2) = subtree_shape(s, p);
    proof {
        let c2 = q.subrange(p as int, p + m2);
        assert(q.subrange(i, p + m2) =~= seq![q[i]] + c1 + c2);
        lemma_join_binary(q[i], c1, c2);
    }
    let h = if h1 >= h2 {
        h1
    } else {
        h2
    };
    (1 + m1 + m2, 1 + h)
}

/// Replacing a subtree of a tree by another tree gives a tree.
pub proof fn lemma_splice(s: Seq<Node>, p: int, n: int, x: Seq<Node>)
    requires
        is_tree(s),
        0 <= p,
        0 < n,
        p + n <= s.len(),
        is_tree(s.subrange(p, p + n)),
        is_tree(x),
    ensures
        is_tree(s.take(p) + x + s.skip(p + n)),
{
    let l = s.take(p);
    let r = s.skip(p + n);
    let t = l + x + r;
    let len = s.len() as int;
    assert(s =~= l + s.subrange(p, p + n) + r);
    lemma_balance_concat(l, s.subrange(p, p + n));
    lemma_balance_concat(l + s.subrange(p, p + n), r);
    lemma_balance_concat(l, x);
    lemma_balance_concat(l + x, r);
    assert(balance(l) >= 0) by {
        if p == 0 {
            assert(l =~= Seq::<Node>::empty());
        } else {
            assert(s.take(p) == l);
        }
    }
    assert forall|m: int| 0 < m < t.len() implies balance(#[trigger] t.take(m)) >= 0 by {
        if m <= p {
            assert(t.take(m) =~= s.take(m));
        } else if m <= p + x.len() {
            assert(t.take(m) =~= l + x.take(m - p));
            lemma_balance_concat(l, x.take(m - p));
            if m - p == x.len() {
                assert(x.take(m - p) =~= x);
                assert(s.take(p + n) =~= l + s.subrange(p, p + n));
            }
        } else {
            let k = m - p - x.len();
            assert(t.take(m) =~= (l + x) + r.take(k));
            lemma_balance_concat(l + x, r.take(k));
            assert(s.take(p + n + k) =~= (l + s.subrange(p, p + n)) + r.take(k));
            lemma_balance_concat(l + s.subrange(p, p + n), r.take(k));
        }
    }
}

/// A subtree found at `i` is the one `subtree_size` names.
pub proof fn lemma_subtree_size(s: Seq<Node>, i: int, n: int)
    requires
        0 <= i,
        0 < n,
        i + n <= s.len(),
        is_tree(s.subrange(i, i + n)),
    ensures
        subtree_size(s, i) == n,
{
    assert(s.skip(i).take(n) =~= s.subrange(i, i + n));
    lemma_first_tree_len(s.skip(i), n);
}

fn digit(d: u64) -> (r: char)
    requires
        d < 10,
    ensures
        r == digit_char(d as nat),
{
    if d == 0 { '0' } else if d == 1 { '1' } else if d == 2 { '2' } else if d == 3 { '3' }
    else if d == 4 { '4' } else if d == 5 { '5' } else if d == 6 { '6' } else if d == 7 { '7' }
    else if d == 8 { '8' } else { '9' }
}

fn push_decimal(out: &mut Vec<char>, n: u64)
    ensures
        final(out)@ == old(out)@ + decimal(n as nat),
    decreases n,
{
    if n >= 10 {
        push_decimal(out, n / 10);
    }
    out.push(digit(n % 10));
    proof {
        if n < 10 {
            assert(old(out)@ + decimal(n as nat) =~= old(out)@.push(digit_char(n as nat)));
        } else {
            assert(old(out)@ + decimal(n as nat) =~= (old(out)@ + decimal((n / 10) as nat)).push(
                digit_char((n % 10) as nat),
            ));
        }
    }
}

fn push_padded(out: &mut Vec<char>, n: u64, width: u64)
    ensures
        final(out)@ == old(out)@ + padded(n as nat, width as nat),
    decreases width,
{
    if width == 0 {
        proof {
            assert(old(out)@ + padded(n as nat, 0) =~= old(out)@);
        }
        return;
    }
    push_padded(out, n / 10, width - 1);
    out.push(digit(n % 10));
    proof {
        assert(old(out)@ + padded(n as nat, width as nat) =~= (old(out)@ + padded(
            (n / 10) as nat,
            (width - 1) as nat,
        )).push(digit_char((n % 10) as nat)));
    }
}

fn push_chars(out: &mut Vec<char>, chars: &[char])
    ensures
        final(out)@ == old(out)@ + chars@,
{
    let ghost text = chars@;
    let mut k: usize = 0;
    while k < chars.len()
        invariant
            chars@ == text,
            k <= chars@.len(),
            out@ == old(out)@ + text.take(k as int),
        decreases chars@.len() - k,
    {
        out.push(chars[k]);
        k = k + 1;
        proof {
            assert(out@ =~= old(out)@ + text.take(k as int));
        }
    }
    proof {
        assert(text.take(chars@.len() as int) =~= text);
    }
}

/// Appends the text of node `n`.
pub fn push_node_text(out: &mut Vec<char>, n: Node)
    ensures
        final(out)@ == old(out)@ + node_text(n),
{
    match n {
        Node::Addition => {
            push_chars(out, &[' ', '+', ' ']);
            proof {
                assert(final(out)@ =~= old(out)@ + node_text(n));
            }
        },
        Node::Subtraction => {
            push_chars(out, &[' ', '-', ' ']);
            proof {
                assert(final(out)@ =~= old(out)@ + node_text(n));
            }
        },
        Node::Multiplication => {
            push_chars(out, &[' ', '*', ' ']);
            proof {
                assert(final(out)@ =~= old(out)@ + node_text(n));
            }
        },
        Node::Division => {
            push_chars(out, &[' ', '/', ' ']);
            proof {
                assert(final(out)@ =~= old(out)@ + node_text(n));
            }
        },
        Node::Sine => {
            push_chars(out, &['s', 'i', 'n']);
            proof {
                assert(final(out)@ =~= old(out)@ + node_text(n));
            }
        },
        Node::Ln => {
            push_chars(out, &['l', 'n']);
            proof {
                assert(final(out)@ =~= old(out)@ + node_text(n));
            }
        },
        Node::Square => {
            push_chars(out, &['s', 'q', 'u', 'a', 'r', 'e']);
            proof {
                assert(final(out)@ =~= old(out)@ + node_text(n));
            }
        },
        Node::Input(j) => {
            out.push('x');
            push_decimal(out, j as u64);
            proof {
                assert(final(out)@ =~= old(out)@ + node_text(n));
            }
        },
        Node::Constant(c) => {
            let m: u64 = if c < 0 {
                (-(c as i64)) as u64
            } else {
                c as u64
            };
            out.push('(');
            let ghost a = out@;
            if c < 0 {
                out.push('-');
            }
            let ghost b = out@;
            push_decimal(out, m / 1_000_000_000);
            out.push('.');
            push_padded(out, m % 1_000_000_000, 9);
            out.push(')');
            proof {
                let sign: Seq<char> = if c < 0 { seq!['-'] } else { Seq::empty() };
                assert(b =~= old(out)@ + seq!['('] + sign);
                assert(final(out)@ =~= old(out)@ + constant_text(c));
            }
        },
    }
}

/// Appends the text of the subtree that starts at `start` and returns its size.
pub fn render_subtree(s: &Vec<Node>, start: usize, out: &mut Vec<char>) -> (r: usize)
    requires
        start < s@.len(),
        balance(s@.subrange(start as int, s@.len() as int)) < 0,
    ensures
        0 < r <= s@.len() - start,
        is_tree(s@.subrange(start as int, start + r)),
        final(out)@ == old(out)@ + render_tree(s@.subrange(start as int, start + r)),
    decreases s@.len() - start,
{
    let ghost q = s@;
    let ghost i = start as int;
    let total = s.len();
    let ghost len = q.len() as int;
    let f = s[start];
    let a = f.arity();
    if a == 0 {
        push_node_text(out, f);
        proof {
            assert(q.subrange(i, i + 1) =~= seq![q[i]]);
            lemma_leaf(q[i]);
        }
        return 1;
    }
    proof {
        lemma_balance_single(q[i]);
        assert(q.subrange(i, i + 1) =~= seq![q[i]]);
        lemma_balance_split(q, i, i + 1, len);
    }
    if a == 1 {
        push_node_text(out, f);
        out.push('(');
        let m1 = render_subtree(s, start + 1, out);
        out.push(')');
        proof {
            let c1 = q.subrange(i + 1, i + 1 + m1);
            assert(q.subrange(i, i + 1 + m1) =~= seq![q[i]] + c1);
            lemma_join_unary(q[i], c1);
            assert(final(out)@ =~= old(out)@ + render_tree(seq![q[i]] + c1));
        }
        return 1 + m1;
    }
    out.push('(');
    let m1 = render_subtree(s, start + 1, out);
    let ghost c1 = q.subrange(i + 1, i + 1 + m1);
    push_node_text(out, f);
    let p = start + 1 + m1;
    proof {
        lemma_balance_split(q, i + 1, p as int, len);
        lemma_balance_split(q, i, i + 1, len);
        if p == len {
            assert(q.subrange(i + 1, p as int) =~= q.subrange(i + 1, len));
        }
    }
    let m2 = render_subtree(s, p, out);
    out.push(')');
    proof {
        let c2 = q.subrange(p as int, p + m2);
        assert(q.subrange(i, p + m2) =~= seq![q[i]] + c1 + c2);
        lemma_join_binary(q[i], c1, c2);
        assert(final(out)@ =~= old(out)@ + render_tree(seq![q[i]] + c1 + c2));
    }
    1 + m1 + m2
}

/// A sequence owes at most one subtree more than it holds per node.
pub proof fn lemma_balance_lower(t: Seq<Node>)
    ensures
        balance(t) >= -t.len(),
    decreases t.len(),
{
    if t.len() > 0 {
        lemma_balance_lower(t.drop_last());
    }
}

proof fn lemma_balance_step(s: Seq<Node>, i: int, k: int)
    requires
        0 <= i <= k < s.len(),
    ensures
        balance(s.subrange(i, k + 1)) == balance(s.subrange(i, k)) + arity_of(s[k]) - 1,
{
    assert(s.subrange(i, k + 1).drop_last() =~= s.subrange(i, k));
    assert(s.subrange(i, k + 1).last() == s[k]);
}

/// The number of nodes in the subtree that starts at `start`, found by scanning; `None`
/// when `start` is out of range or no complete subtree starts there.
pub fn checked_subtree_len(s: &Vec<Node>, start: usize) -> (r: Option<usize>)
    ensures
        r matches Some(n) ==> 0 < n <= s@.len() - start && is_tree(
            s@.subrange(start as int, start + n),
        ),
        r is None ==> forall|n: int|
            0 < n <= s@.len() - start ==> !is_tree(#[trigger] s@.subrange(start as int, start + n)),
{
    let len = s.len();
    if start >= len {
        return None;
    }
    let ghost q = s@;
    let ghost i = start as int;
    let mut owed: usize = 1;
    let mut k: usize = start;
    proof {
        assert(q.subrange(i, i) =~= Seq::<Node>::empty());
    }
    while k < len
        invariant
            q == s@,
            len == q.len(),
            i == start,
            start <= k <= len,
            1 <= owed <= len - k,
            owed == 1 + balance(q.subrange(i, k as int)),
            forall|m: int| i < m <= k ==> balance(#[trigger] q.subrange(i, m)) >= 0,
        decreases len - k,
    {
        let a = s[k].arity();
        let rest = len - k - 1;
        let base = owed - 1;
        proof {
            lemma_balance_step(q, i, k as int);
        }
        if a > rest - base {
            proof {
                assert forall|n: int| 0 < n <= q.len() - start implies !is_tree(
                    #[trigger] q.subrange(i, start + n),
                ) by {
                    let m = i + n;
                    if m > k + 1 {
                        lemma_balance_split(q, i, k + 1, m);
                        lemma_balance_lower(q.subrange(k + 1, m));
                    }
                }
            }
            return None;
        }
        let next = base + a;
        if next == 0 {
            proof {
                let t = q.subrange(i, k + 1);
                assert forall|m: int| 0 < m < t.len() implies balance(#[trigger] t.take(m)) >= 0 by {
                    assert(t.take(m) =~= q.subrange(i, i + m));
                }
            }
            return Some(k + 1 - start);
        }
        owed = next;
        k = k + 1;
    }
    None
}

} // verus!
