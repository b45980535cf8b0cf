//! The backward pass: gradients of one root with respect to every node.
use vstd::prelude::*;
use crate::arith::{wrap64, lemma_wrap64_small, lemma_wrapping_add, lemma_wrapping_mul};
use crate::graph::{Arena, Op, Value, same_but_grads, graph_wf, node_wf, is_operand, reaches, left, right,
    lemma_reaches_earlier};
use crate::topo::is_postorder;

verus! {

/// What the local rule of an `op` node with gradient `g` adds to its left
/// operand, given the values `x` and `y` of its operands.
pub open spec fn delta_left(op: Op, g: int, x: i64, y: i64) -> int {
    match op {
        Op::Add => g,
        Op::Mul => g * y,
        Op::Leaf => 0,
    }
}

/// What the local rule of an `op` node with gradient `g` adds to its right
/// operand, given the values `x` and `y` of its operands.
pub open spec fn delta_right(op: Op, g: int, x: i64, y: i64) -> int {
    match op {
        Op::Add => g,
        Op::Mul => g * x,
        Op::Leaf => 0,
    }
}

/// What node `p`, reached from `root` and holding gradient `gp`, passes on
/// to node `n` (once for each operand slot that `n` fills).
pub open spec fn passed_on(g: Seq<Value>, root: int, p: int, n: int, gp: int) -> int {
    if reaches(g, root, p) && g[p].op != Op::Leaf && g[p].prev@.len() == 2 {
        let x = g[left(g, p)].data;
        let y = g[right(g, p)].data;
        (if left(g, p) == n { delta_left(g[p].op, gp, x, y) } else { 0 }) + (if right(g, p) == n {
            delta_right(g[p].op, gp, x, y)
        } else {
            0
        })
    } else {
        0
    }
}

/// The gradient that node `n` holds before contributions arrive: the seed
/// 1 on the root, the stored gradient elsewhere.
pub open spec fn base(g: Seq<Value>, root: int, n: int) -> int {
    if n == root {
        1
    } else {
        g[n].grad as int
    }
}

/// The exact gradient of `root` with respect to node `n`, added to what `n`
/// held: its base plus the contribution of every node created after it.
pub open spec fn adjoint(g: Seq<Value>, root: int, n: int) -> int
    decreases g.len() - n, 1int, 0int,
{
    if n < 0 || n >= g.len() {
        0
    } else {
        base(g, root, n) + incoming(g, root, n, n + 1)
    }
}

/// The sum of the contributions to node `n` of the nodes `p` and after.
pub open spec fn incoming(g: Seq<Value>, root: int, n: int, p: int) -> int
    decreases g.len() - n, 0int, g.len() - p,
{
    if n < 0 || n >= g.len() || p <= n || p >= g.len() {
        0
    } else {
        passed_on(g, root, p, n, adjoint(g, root, p)) + incoming(g, root, n, p + 1)
    }
}

/// The sum of the contributions to node `n` of the nodes `p` and after that
/// lie in `done`.
pub open spec fn incoming_from(g: Seq<Value>, root: int, n: int, p: int, done: Set<int>) -> int
    decreases g.len() - p,
{
    if n < 0 || p <= n || p >= g.len() {
        0
    } else {
        (if done.contains(p) {
            passed_on(g, root, p, n, adjoint(g, root, p))
        } else {
            0
        }) + incoming_from(g, root, n, p + 1, done)
    }
}

/// Nothing has arrived while no node is done.
pub proof fn lemma_from_empty(g: Seq<Value>, root: int, n: int, p: int)
    ensures
        incoming_from(g, root, n, p, Set::empty()) == 0,
    decreases g.len() - p,
{
    if !(n < 0 || p <= n || p >= g.len()) {
        lemma_from_empty(g, root, n, p + 1);
    }
}

/// Marking node `q` done adds what `q` passes on to `n`.
pub proof fn lemma_from_insert(g: Seq<Value>, root: int, n: int, p: int, done: Set<int>, q: int)
    requires
        !done.contains(q),
        n < q < g.len(),
        n < p,
        0 <= n,
    ensures
        incoming_from(g, root, n, p, done.insert(q)) == incoming_from(g, root, n, p, done) + (
        if p <= q {
            passed_on(g, root, q, n, adjoint(g, root, q))
        } else {
            0
        }),
    decreases g.len() - p,
{
    if p < g.len() {
        lemma_from_insert(g, root, n, p + 1, done, q);
    }
}

/// A node created no later than `n` passes nothing on to `n`.
pub proof fn lemma_from_insert_late(g: Seq<Value>, root: int, n: int, p: int, done: Set<int>, q: int)
    requires
        n >= q,
    ensures
        incoming_from(g, root, n, p, done.insert(q)) == incoming_from(g, root, n, p, done),
    decreases g.len() - p,
{
    if !(n < 0 || p <= n || p >= g.len()) {
        lemma_from_insert_late(g, root, n, p + 1, done, q);
    }
}

/// Once every reachable parent of `n` is done, all of `n`'s incoming
/// contributions have arrived.
pub proof fn lemma_from_all(g: Seq<Value>, root: int, n: int, p: int, done: Set<int>)
    requires
        0 <= n < g.len(),
        n < p,
        forall|x: int|
            n < x < g.len() && reaches(g, root, x) && #[trigger] is_operand(g, x, n)
                ==> done.contains(x),
    ensures
        incoming_from(g, root, n, p, done) == incoming(g, root, n, p),
    decreases g.len() - p,
{
    if p < g.len() {
        lemma_from_all(g, root, n, p + 1, done);
        if !done.contains(p) {
            assert(!(reaches(g, root, p) && is_operand(g, p, n)));
        }
    }
}

/// Nothing reached from the root comes after it, so nothing arrives at it.
pub proof fn lemma_root_incoming(g: Seq<Value>, root: int, p: int)
    requires
        0 <= root < p,
    ensures
        incoming(g, root, root, p) == 0,
    decreases g.len() - p,
{
    if p < g.len() {
        if reaches(g, root, p) {
            lemma_reaches_earlier(g, root, p);
        }
        lemma_root_incoming(g, root, p + 1);
    }
}

impl Value {
    /// The local gradient rule: what this node adds to the gradients of its
    /// left and right operands, whose values are `x` and `y`.
    pub fn backward(&self, x: i64, y: i64) -> (r: (i64, i64))
        ensures
            r.0 == wrap64(delta_left(self.op, self.grad as int, x, y)),
            r.1 == wrap64(delta_right(self.op, self.grad as int, x, y)),
    {
        proof {
            lemma_wrap64_small(self.grad as int);
            lemma_wrap64_small(0);
        }
        match self.op {
            Op::Add => (self.grad, self.grad),
            Op::Mul => (self.grad.wrapping_mul(y), self.grad.wrapping_mul(x)),
            Op::Leaf => (0, 0),
        }
    }
}

impl Arena {
    /// The backward pass from `root`: seeds the root's gradient with 1, then
    /// applies the local rule of every node that `root` reaches exactly once,
    /// each after all of its reachable parents, in reverse topological order.
    /// Afterwards each node's gradient is its [`adjoint`]: the gradient of
    /// `root` with respect to it, added to what it held before (taken modulo
    /// 2^64, as all arithmetic here). Values and structure are not touched.
    pub fn backward(&mut self, root: usize)
        requires
            old(self).wf(),
            root < old(self).nodes@.len(),
        ensures
            final(self).wf(),
            same_but_grads(final(self).nodes@, old(self).nodes@),
            forall|n: int|
                0 <= n < old(self).nodes@.len() ==> #[trigger] final(self).nodes@[n].grad
                    == wrap64(adjoint(old(self).nodes@, root as int, n)),
            final(self).nodes@[root as int].grad == 1,
    {
        let ghost g = self.nodes@;
        let order = self.topo_order(root);
        self.nodes[root].grad = 1;
        let ghost mut done: Set<int> = Set::empty();
        proof {
            assert forall|n: int| 0 <= n < g.len() implies #[trigger] self.nodes@[n].grad as int
                == wrap64(base(g, root as int, n) + incoming_from(g, root as int, n, n + 1, done)) by {
                lemma_from_empty(g, root as int, n, n + 1);
                lemma_wrap64_small(base(g, root as int, n));
            }
            assert(graph_wf(self.nodes@)) by {
                assert forall|i: int| 0 <= i < self.nodes@.len() implies #[trigger] node_wf(
                    self.nodes@,
                    i,
                ) by {
                    assert(node_wf(g, i));
                }
            }
        }
        let mut k: usize = order.len();
        while k > 0
            invariant
                k <= order@.len(),
                is_postorder(g, order@),
                forall|x: int|
                    0 <= x < g.len() ==> (order@.contains(x as usize) <==> reaches(
                        g,
                        root as int,
                        x,
                    )),
                graph_wf(g),
                root < g.len(),
                same_but_grads(self.nodes@, g),
                forall|j: int| k <= j < order@.len() ==> done.contains(#[trigger] order@[j] as int),
                forall|x: int|
                    #[trigger] done.contains(x) ==> exists|j: int|
                        k <= j < order@.len() && #[trigger] order@[j] as int == x,
                forall|n: int|
                    0 <= n < g.len() ==> #[trigger] self.nodes@[n].grad as int == wrap64(
                        base(g, root as int, n) + incoming_from(g, root as int, n, n + 1, done),
                    ),
            decreases k,
        {
            k = k - 1;
            let q = order[k];
            let ghost qi = q as int;
            let ghost adj = adjoint(g, root as int, qi);
            proof {
                assert(order@.contains(q));
                assert(reaches(g, root as int, qi));
                assert(!done.contains(qi)) by {
                    if done.contains(qi) {
                        let j = choose|j: int| k + 1 <= j < order@.len() && order@[j] as int == qi;
                        assert(order@[j] == order@[k as int]);
                    }
                }
                assert forall|x: int|
                    qi < x < g.len() && reaches(g, root as int, x) && #[trigger] is_operand(g, x, qi)
                        implies done.contains(x) by {
                    assert(order@.contains(x as usize));
                    let j = order@.index_of(x as usize);
                    assert(is_operand(g, order@[j] as int, order@[k as int] as int));
                }
                lemma_from_all(g, root as int, qi, qi + 1, done);
                assert(node_wf(g, qi));
            }
            let ghost before = self.nodes@;
            let ghost olddone = done;
            proof {
                done = done.insert(qi);
            }
            if self.nodes[q].op != Op::Leaf {
                let l = self.nodes[q].prev[0];
                let r = self.nodes[q].prev[1];
                let x = self.nodes[l].data;
                let y = self.nodes[r].data;
                let (dl, dr) = self.nodes[q].backward(x, y);
                proof {
                    lemma_wrapping_mul(adj, y);
                    lemma_wrapping_mul(adj, x);
                    assert(dl == wrap64(delta_left(g[qi].op, adj, x, y)));
                    assert(dr == wrap64(delta_right(g[qi].op, adj, x, y)));
                }
                let ghost s_l = base(g, root as int, l as int) + incoming_from(g, root as int, l as int, l + 1, olddone);
                proof {
                    lemma_wrapping_add(s_l, delta_left(g[qi].op, adj, x, y));
                }
                let gl = self.nodes[l].grad.wrapping_add(dl);
                self.nodes[l].grad = gl;
                let ghost s_r = base(g, root as int, r as int) + incoming_from(g, root as int, r as int, r + 1, olddone)
                    + (if l == r { delta_left(g[qi].op, adj, x, y) } else { 0 });
                proof {
                    lemma_wrapping_add(s_r, delta_right(g[qi].op, adj, x, y));
                }
                let gr = self.nodes[r].grad.wrapping_add(dr);
                self.nodes[r].grad = gr;
                proof {
                    assert forall|n: int| 0 <= n < g.len() implies #[trigger] self.nodes@[n].grad as int
                        == wrap64(base(g, root as int, n) + incoming_from(g, root as int, n, n + 1, done)) by {
                        if n < qi {
                            lemma_from_insert(g, root as int, n, n + 1, olddone, qi);
                        } else {
                            lemma_from_insert_late(g, root as int, n, n + 1, olddone, qi);
                        }
                        assert(before[n].grad as int == wrap64(base(g, root as int, n) + incoming_from(g, root as int, n, n + 1, olddone)));
                    }
                }
            } else {
                proof {
                    assert forall|n: int| 0 <= n < g.len() implies #[trigger] self.nodes@[n].grad as int
                        == wrap64(base(g, root as int, n) + incoming_from(g, root as int, n, n + 1, done)) by {
                        if n < qi {
                            lemma_from_insert(g, root as int, n, n + 1, olddone, qi);
                        } else {
                            assert(incoming_from(g, root as int, n, n + 1, done) == incoming_from(g, root as int, n, n + 1, olddone)) by {
                                lemma_from_insert_late(g, root as int, n, n + 1, olddone, qi);
                            }
                        }
                    }
                }
            }
            proof {
                assert forall|x: int| #[trigger] done.contains(x) implies exists|j: int|
                    k <= j < order@.len() && #[trigger] order@[j] as int == x by {
                    if x == qi {
                        assert(order@[k as int] as int == x);
                    } else {
                        assert(olddone.contains(x));
                    }
                }
            }
        }
        proof {
            assert forall|n: int| 0 <= n < g.len() implies #[trigger] self.nodes@[n].grad
                == wrap64(adjoint(g, root as int, n)) by {
                assert forall|x: int|
                    n < x < g.len() && reaches(g, root as int, x) && #[trigger] is_operand(g, x, n)
                        implies done.contains(x) by {
                    assert(order@.contains(x as usize));
                    let j = order@.index_of(x as usize);
                    assert(done.contains(order@[j] as int));
                }
                lemma_from_all(g, root as int, n, n + 1, done);
            }
            lemma_root_incoming(g, root as int, root + 1);
            lemma_wrap64_small(1);
            assert(graph_wf(self.nodes@)) by {
                assert forall|i: int| 0 <= i < self.nodes@.len() implies #[trigger] node_wf(
                    self.nodes@,
                    i,
                ) by {
                    assert(node_wf(g, i));
                }
            }
        }
    }
}

} // verus!
