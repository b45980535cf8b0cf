//! What the backward pass computes on small graphs, proved from the
//! definition of the adjoint.
use vstd::prelude::*;
use crate::arith::wrap64;
use crate::graph::{Op, Value, graph_wf, node_wf, reaches, left, right};
use crate::backprop::{adjoint, incoming, passed_on, delta_left, delta_right, lemma_root_incoming};

verus! {

/// Only node `s` passes anything on to node `n` among the nodes `p` and
/// after.
proof fn lemma_incoming_single(g: Seq<Value>, root: int, n: int, p: int, s: int)
    requires
        0 <= n < s < g.len(),
        n < p <= s,
        forall|x: int| p <= x < g.len() && x != s ==> #[trigger] passed_on(g, root, x, n, adjoint(g, root, x)) == 0,
    ensures
        incoming(g, root, n, p) == passed_on(g, root, s, n, adjoint(g, root, s)),
    decreases g.len() - p,
{
    if p < s {
        lemma_incoming_single(g, root, n, p + 1, s);
        assert(passed_on(g, root, p, n, adjoint(g, root, p)) == 0);
    } else {
        lemma_incoming_none(g, root, n, p + 1);
    }
    assert(incoming(g, root, n, p) == passed_on(g, root, p, n, adjoint(g, root, p)) + incoming(
        g,
        root,
        n,
        p + 1,
    ));
}

/// Nothing is passed on to node `n` by the nodes `p` and after.
proof fn lemma_incoming_none(g: Seq<Value>, root: int, n: int, p: int)
    requires
        0 <= n < p,
        forall|x: int| p <= x < g.len() ==> #[trigger] passed_on(g, root, x, n, adjoint(g, root, x)) == 0,
    ensures
        incoming(g, root, n, p) == 0,
    decreases g.len() - p,
{
    if p < g.len() {
        lemma_incoming_none(g, root, n, p + 1);
        assert(passed_on(g, root, p, n, adjoint(g, root, p)) == 0);
    }
}

/// Only the distinct nodes `s` and `t` pass anything on to node `n` among the
/// nodes `p` and after.
proof fn lemma_incoming_pair(g: Seq<Value>, root: int, n: int, p: int, s: int, t: int)
    requires
        0 <= n < s < t < g.len(),
        n < p <= s,
        forall|x: int|
            p <= x < g.len() && x != s && x != t ==> #[trigger] passed_on(g, root, x, n, adjoint(g, root, x)) == 0,
    ensures
        incoming(g, root, n, p) == passed_on(g, root, s, n, adjoint(g, root, s)) + passed_on(
            g,
            root,
            t,
            n,
            adjoint(g, root, t),
        ),
    decreases g.len() - p,
{
    if p < s {
        lemma_incoming_pair(g, root, n, p + 1, s, t);
        assert(passed_on(g, root, p, n, adjoint(g, root, p)) == 0);
    } else {
        lemma_incoming_single(g, root, n, p + 1, t);
    }
    assert(incoming(g, root, n, p) == passed_on(g, root, p, n, adjoint(g, root, p)) + incoming(
        g,
        root,
        n,
        p + 1,
    ));
}

/// The root's adjoint is the seed 1.
proof fn lemma_root_adjoint(g: Seq<Value>, root: int)
    requires
        0 <= root < g.len(),
    ensures
        adjoint(g, root, root) == 1,
{
    lemma_root_incoming(g, root, root + 1);
}

/// A leaf reaches nothing but itself.
proof fn lemma_leaf_reaches(g: Seq<Value>, a: int, x: int)
    requires
        0 <= a < g.len(),
        g[a].op == Op::Leaf,
        reaches(g, a, x),
    ensures
        x == a,
{
}

/// Additive rule: with `s = a + b` for two distinct leaves as the root of a
/// fresh graph, the backward pass leaves gradient 1 on `a` and on `b`.
pub proof fn law_add_rule(g: Seq<Value>, s: int)
    requires
        graph_wf(g),
        0 <= s < g.len(),
        g[s].op == Op::Add,
        left(g, s) != right(g, s),
        g[left(g, s)].op == Op::Leaf,
        g[right(g, s)].op == Op::Leaf,
        g[left(g, s)].grad == 0,
        g[right(g, s)].grad == 0,
    ensures
        wrap64(adjoint(g, s, left(g, s))) == 1,
        wrap64(adjoint(g, s, right(g, s))) == 1,
{
    lemma_binary_leaves(g, s);
    vstd::arithmetic::div_mod::lemma_small_mod(1, crate::arith::modulus() as nat);
}

/// Multiplicative rule: with `p = a * b` for two distinct leaves as the root
/// of a fresh graph, the backward pass leaves on `a` the value of `b` and on
/// `b` the value of `a`.
pub proof fn law_mul_rule(g: Seq<Value>, p: int)
    requires
        graph_wf(g),
        0 <= p < g.len(),
        g[p].op == Op::Mul,
        left(g, p) != right(g, p),
        g[left(g, p)].op == Op::Leaf,
        g[right(g, p)].op == Op::Leaf,
        g[left(g, p)].grad == 0,
        g[right(g, p)].grad == 0,
    ensures
        wrap64(adjoint(g, p, left(g, p))) == g[right(g, p)].data,
        wrap64(adjoint(g, p, right(g, p))) == g[left(g, p)].data,
{
    lemma_binary_leaves(g, p);
    crate::arith::lemma_wrap64_small(g[right(g, p)].data as int);
    crate::arith::lemma_wrap64_small(g[left(g, p)].data as int);
}

/// For a binary root over two distinct leaves, each leaf's adjoint is what
/// the root's local rule passes to it from the seed 1.
proof fn lemma_binary_leaves(g: Seq<Value>, s: int)
    requires
        graph_wf(g),
        0 <= s < g.len(),
        g[s].op != Op::Leaf,
        left(g, s) != right(g, s),
        g[left(g, s)].op == Op::Leaf,
        g[right(g, s)].op == Op::Leaf,
        g[left(g, s)].grad == 0,
        g[right(g, s)].grad == 0,
    ensures
        adjoint(g, s, left(g, s)) == delta_left(g[s].op, 1, g[left(g, s)].data, g[right(g, s)].data),
        adjoint(g, s, right(g, s)) == delta_right(g[s].op, 1, g[left(g, s)].data, g[right(g, s)].data),
{
    assert(node_wf(g, s));
    let a = left(g, s);
    let b = right(g, s);
    lemma_root_adjoint(g, s);
    assert forall|x: int| 0 <= x < g.len() && x != s && reaches(g, s, x) implies x == a || x
        == b by {
        if reaches(g, a, x) {
            lemma_leaf_reaches(g, a, x);
        } else {
            lemma_leaf_reaches(g, b, x);
        }
    }
    assert(node_wf(g, a));
    assert(node_wf(g, b));
    lemma_incoming_single(g, s, a, a + 1, s);
    lemma_incoming_single(g, s, b, b + 1, s);
}

/// Shared sub-expression: for leaves `a`, `b`, with `c = a * b`,
/// `d = a + b` and `e = c * d` as the root of a fresh graph, the gradient on
/// `a` sums what reaches it along both paths, `d·b + c·1`, and likewise the
/// gradient on `b` is `d·a + c·1`.
pub proof fn law_shared_subexpression(g: Seq<Value>, a: int, b: int, c: int, d: int, e: int)
    requires
        graph_wf(g),
        0 <= a < g.len(),
        0 <= b < g.len(),
        0 <= c < g.len(),
        0 <= d < g.len(),
        0 <= e < g.len(),
        a != b,
        g[a].op == Op::Leaf,
        g[b].op == Op::Leaf,
        g[c].op == Op::Mul,
        g[c].prev@ == seq![a as usize, b as usize],
        g[d].op == Op::Add,
        g[d].prev@ == seq![a as usize, b as usize],
        g[e].op == Op::Mul,
        g[e].prev@ == seq![c as usize, d as usize],
        g[a].grad == 0,
        g[b].grad == 0,
        g[c].grad == 0,
        g[d].grad == 0,
    ensures
        adjoint(g, e, a) == g[d].data * g[b].data + g[c].data,
        adjoint(g, e, b) == g[d].data * g[a].data + g[c].data,
{
    assert(node_wf(g, c));
    assert(node_wf(g, d));
    assert(node_wf(g, e));
    assert(left(g, c) == a && right(g, c) == b);
    assert(left(g, d) == a && right(g, d) == b);
    assert(left(g, e) == c && right(g, e) == d);
    lemma_root_adjoint(g, e);
    assert forall|x: int| 0 <= x < g.len() && reaches(g, e, x) implies x == e || x == c || x == d
        || x == a || x == b by {
        if x != e {
            if reaches(g, c, x) && x != c {
                if reaches(g, a, x) {
                    lemma_leaf_reaches(g, a, x);
                } else {
                    lemma_leaf_reaches(g, b, x);
                }
            } else if reaches(g, d, x) && x != d {
                if reaches(g, a, x) {
                    lemma_leaf_reaches(g, a, x);
                } else {
                    lemma_leaf_reaches(g, b, x);
                }
            }
        }
    }
    assert(node_wf(g, a));
    assert(node_wf(g, b));
    lemma_incoming_single(g, e, c, c + 1, e);
    lemma_incoming_single(g, e, d, d + 1, e);
    assert(adjoint(g, e, c) == g[d].data);
    assert(adjoint(g, e, d) == g[c].data);
    if c < d {
        lemma_incoming_pair(g, e, a, a + 1, c, d);
        lemma_incoming_pair(g, e, b, b + 1, c, d);
    } else {
        lemma_incoming_pair(g, e, a, a + 1, d, c);
        lemma_incoming_pair(g, e, b, b + 1, d, c);
    }
    assert(reaches(g, c, c) && reaches(g, d, d));
    assert(reaches(g, e, c) && reaches(g, e, d));
    assert(passed_on(g, e, c, a, adjoint(g, e, c)) == g[d].data * g[b].data);
    assert(passed_on(g, e, d, a, adjoint(g, e, d)) == g[c].data);
    assert(passed_on(g, e, c, b, adjoint(g, e, c)) == g[d].data * g[a].data);
    assert(passed_on(g, e, d, b, adjoint(g, e, d)) == g[c].data);
    assert(adjoint(g, e, a) == incoming(g, e, a, a + 1));
    assert(adjoint(g, e, b) == incoming(g, e, b, b + 1));
}

} // verus!
