//! The computation node and the arena that holds a graph of them.
use vstd::prelude::*;
use crate::arith::wrap64;

verus! {

/// The operation that produced a node. `Leaf` marks an input, which has no operands.
#[derive(Debug, Clone, Copy, PartialEq, Eq, Structural)]
pub enum Op {
    Add,
    Mul,
    Leaf,
}

/// One scalar node: its value, its accumulated gradient, the handles of its
/// operands (in order), an optional display name and its operation.
#[derive(Debug)]
pub struct Value {
    pub data: i64,
    pub grad: i64,
    pub prev: Vec<usize>,
    pub label: Option<String>,
    pub op: Op,
}

/// An arena of nodes; a node's operands are given by their handles, which are
/// positions in the arena.
#[derive(Debug)]
pub struct Arena {
    pub nodes: Vec<Value>,
}

/// Node `i` of `g` is well formed: a leaf has no operands, a binary node has
/// two, and each operand was created before it.
pub open spec fn node_wf(g: Seq<Value>, i: int) -> bool {
    let v = g[i];
    if v.op == Op::Leaf {
        v.prev@.len() == 0
    } else {
        &&& v.prev@.len() == 2
        &&& v.prev@[0] < i
        &&& v.prev@[1] < i
    }
}

/// Every node of `g` is well formed, so the operand relation is acyclic.
pub open spec fn graph_wf(g: Seq<Value>) -> bool {
    &&& g.len() <= usize::MAX
    &&& forall|i: int| 0 <= i < g.len() ==> #[trigger] node_wf(g, i)
}

/// Handle of the left operand of node `p`.
pub open spec fn left(g: Seq<Value>, p: int) -> int {
    g[p].prev@[0] as int
}

/// Handle of the right operand of node `p`.
pub open spec fn right(g: Seq<Value>, p: int) -> int {
    g[p].prev@[1] as int
}

/// Node `p` is a binary node with `n` as one of its operands.
pub open spec fn is_operand(g: Seq<Value>, p: int, n: int) -> bool {
    &&& 0 <= p < g.len()
    &&& g[p].op != Op::Leaf
    &&& g[p].prev@.len() == 2
    &&& (left(g, p) == n || right(g, p) == n)
}

/// Node `to` can be reached from node `from` by following operand edges
/// (every node reaches itself).
pub open spec fn reaches(g: Seq<Value>, from: int, to: int) -> bool
    decreases from,
{
    if from < 0 || from >= g.len() {
        false
    } else if from == to {
        true
    } else if g[from].op != Op::Leaf && g[from].prev@.len() == 2
        && 0 <= left(g, from) < from && 0 <= right(g, from) < from {
        reaches(g, left(g, from), to) || reaches(g, right(g, from), to)
    } else {
        false
    }
}

/// What a binary operation computes from its operands' values.
pub open spec fn forward(op: Op, x: i64, y: i64) -> int {
    match op {
        Op::Add => wrap64(x + y),
        Op::Mul => wrap64(x * y),
        Op::Leaf => 0,
    }
}

/// A node reaches only nodes created no later than itself.
pub proof fn lemma_reaches_earlier(g: Seq<Value>, from: int, to: int)
    requires
        reaches(g, from, to),
    ensures
        0 <= to <= from < g.len(),
    decreases from,
{
    if from != to {
        if reaches(g, left(g, from), to) {
            lemma_reaches_earlier(g, left(g, from), to);
        } else {
            lemma_reaches_earlier(g, right(g, from), to);
        }
    }
}

/// In a well-formed graph, what an operand reaches its node reaches too.
pub proof fn lemma_reaches_through_operand(g: Seq<Value>, p: int, n: int, to: int)
    requires
        graph_wf(g),
        is_operand(g, p, n),
        reaches(g, n, to),
    ensures
        reaches(g, p, to),
{
    assert(node_wf(g, p));
    lemma_reaches_earlier(g, n, to);
}

/// `a` and `b` hold the same nodes but for their gradients.
pub open spec fn same_but_grads(a: Seq<Value>, b: Seq<Value>) -> bool {
    &&& a.len() == b.len()
    &&& forall|i: int|
        0 <= i < a.len() ==> {
            &&& (#[trigger] a[i]).data == b[i].data
            &&& a[i].op == b[i].op
            &&& a[i].prev@ == b[i].prev@
            &&& a[i].label == b[i].label
        }
}

impl Arena {
    /// The nodes of the arena, in order of creation.
    pub open spec fn view(&self) -> Seq<Value> {
        self.nodes@
    }

    /// Every node is well formed.
    pub open spec fn wf(&self) -> bool {
        graph_wf(self.nodes@)
    }

    /// An empty graph.
    pub fn new() -> (r: Arena)
        ensures
            r.wf(),
            r.nodes@.len() == 0,
    {
        Arena { nodes: Vec::new() }
    }

    /// The number of nodes.
    pub fn len(&self) -> (r: usize)
        ensures
            r == self.nodes@.len(),
    {
        self.nodes.len()
    }

    /// Adds a leaf holding `data`, with a zero gradient, and returns its handle.
    pub fn leaf(&mut self, data: i64, label: Option<String>) -> (r: usize)
        requires
            old(self).wf(),
            old(self).nodes@.len() < usize::MAX,
        ensures
            final(self).wf(),
            r == old(self).nodes@.len(),
            final(self).nodes@.len() == old(self).nodes@.len() + 1,
            final(self).nodes@.take(r as int) == old(self).nodes@,
            final(self).nodes@[r as int].data == data,
            final(self).nodes@[r as int].grad == 0,
            final(self).nodes@[r as int].op == Op::Leaf,
            final(self).nodes@[r as int].prev@.len() == 0,
            final(self).nodes@[r as int].label == label,
    {
        let r = self.nodes.len();
        self.nodes.push(Value { data, grad: 0, prev: Vec::new(), label, op: Op::Leaf });
        proof {
            assert(final(self).nodes@.take(r as int) =~= old(self).nodes@);
            assert forall|i: int| 0 <= i < self.nodes@.len() implies #[trigger] node_wf(
                self.nodes@,
                i,
            ) by {
                if i < r {
                    assert(node_wf(old(self).nodes@, i));
                }
            }
        }
        r
    }

    /// Adds the binary node `op(lhs, rhs)`, its value computed at once from
    /// its operands' values, and returns its handle.
    fn binary(&mut self, op: Op, lhs: usize, rhs: usize) -> (r: usize)
        requires
            old(self).wf(),
            op != Op::Leaf,
            lhs < old(self).nodes@.len(),
            rhs < old(self).nodes@.len(),
            old(self).nodes@.len() < usize::MAX,
        ensures
            final(self).wf(),
            r == old(self).nodes@.len(),
            final(self).nodes@.len() == old(self).nodes@.len() + 1,
            final(self).nodes@.take(r as int) == old(self).nodes@,
            final(self).nodes@[r as int].data == forward(
                op,
                old(self).nodes@[lhs as int].data,
                old(self).nodes@[rhs as int].data,
            ),
            final(self).nodes@[r as int].grad == 0,
            final(self).nodes@[r as int].op == op,
            final(self).nodes@[r as int].prev@ == seq![lhs, rhs],
            final(self).nodes@[r as int].label == None::<String>,
    {
        let x = self.nodes[lhs].data;
        let y = self.nodes[rhs].data;
        let data = match op {
            Op::Add => x.wrapping_add(y),
            Op::Mul => x.wrapping_mul(y),
            Op::Leaf => 0,
        };
        proof {
            if op == Op::Add {
                crate::arith::lemma_wrap64_small(x as int);
                crate::arith::lemma_wrap64_small(y as int);
                crate::arith::lemma_wrapping_add(x as int, y as int);
            }
        }
        let r = self.nodes.len();
        self.nodes.push(Value { data, grad: 0, prev: vec![lhs, rhs], label: None, op });
        proof {
            assert(final(self).nodes@.take(r as int) =~= old(self).nodes@);
            assert forall|i: int| 0 <= i < self.nodes@.len() implies #[trigger] node_wf(
                self.nodes@,
                i,
            ) by {
                if i < r {
                    assert(node_wf(old(self).nodes@, i));
                }
            }
        }
        r
    }

    /// Adds `lhs + rhs` and returns its handle.
    pub fn add(&mut self, lhs: usize, rhs: usize) -> (r: usize)
        requires
            old(self).wf(),
            lhs < old(self).nodes@.len(),
            rhs < old(self).nodes@.len(),
            old(self).nodes@.len() < usize::MAX,
        ensures
            final(self).wf(),
            r == old(self).nodes@.len(),
            final(self).nodes@.len() == old(self).nodes@.len() + 1,
            final(self).nodes@.take(r as int) == old(self).nodes@,
            final(self).nodes@[r as int].data == wrap64(
                old(self).nodes@[lhs as int].data + old(self).nodes@[rhs as int].data,
            ),
            final(self).nodes@[r as int].grad == 0,
            final(self).nodes@[r as int].op == Op::Add,
            final(self).nodes@[r as int].prev@ == seq![lhs, rhs],
            final(self).nodes@[r as int].label == None::<String>,
    {
        self.binary(Op::Add, lhs, rhs)
    }

    /// Adds `lhs * rhs` and returns its handle.
    pub fn mul(&mut self, lhs: usize, rhs: usize) -> (r: usize)
        requires
            old(self).wf(),
            lhs < old(self).nodes@.len(),
            rhs < old(self).nodes@.len(),
            old(self).nodes@.len() < usize::MAX,
        ensures
            final(self).wf(),
            r == old(self).nodes@.len(),
            final(self).nodes@.len() == old(self).nodes@.len() + 1,
            final(self).nodes@.take(r as int) == old(self).nodes@,
            final(self).nodes@[r as int].data == wrap64(
                old(self).nodes@[lhs as int].data * old(self).nodes@[rhs as int].data,
            ),
            final(self).nodes@[r as int].grad == 0,
            final(self).nodes@[r as int].op == Op::Mul,
            final(self).nodes@[r as int].prev@ == seq![lhs, rhs],
            final(self).nodes@[r as int].label == None::<String>,
    {
        self.binary(Op::Mul, lhs, rhs)
    }

    /// Read access to node `i`.
    pub fn node(&self, i: usize) -> (r: &Value)
        requires
            i < self.nodes@.len(),
        ensures
            *r == self.nodes@[i as int],
    {
        &self.nodes[i]
    }

    /// Gives node `i` the display name `label`; nothing else changes.
    pub fn set_label(&mut self, i: usize, label: Option<String>)
        requires
            old(self).wf(),
            i < old(self).nodes@.len(),
        ensures
            final(self).wf(),
            final(self).nodes@.len() == old(self).nodes@.len(),
            final(self).nodes@[i as int].label == label,
            final(self).nodes@[i as int].data == old(self).nodes@[i as int].data,
            final(self).nodes@[i as int].grad == old(self).nodes@[i as int].grad,
            final(self).nodes@[i as int].op == old(self).nodes@[i as int].op,
            final(self).nodes@[i as int].prev@ == old(self).nodes@[i as int].prev@,
            forall|j: int|
                0 <= j < old(self).nodes@.len() && j != i ==> #[trigger] final(self).nodes@[j]
                    == old(self).nodes@[j],
    {
        self.nodes[i].label = label;
        proof {
            assert forall|j: int| 0 <= j < self.nodes@.len() implies #[trigger] node_wf(
                self.nodes@,
                j,
            ) by {
                assert(node_wf(old(self).nodes@, j));
            }
        }
    }

    /// Sets every gradient back to 0, so that a new backward pass starts
    /// fresh; values and structure are not touched.
    pub fn zero_grad(&mut self)
        requires
            old(self).wf(),
        ensures
            final(self).wf(),
            same_but_grads(final(self).nodes@, old(self).nodes@),
            forall|i: int| 0 <= i < final(self).nodes@.len() ==> #[trigger] final(self).nodes@[i].grad == 0,
    {
        let ghost g = self.nodes@;
        let mut i: usize = 0;
        while i < self.nodes.len()
            invariant
                i <= self.nodes@.len(),
                graph_wf(g),
                same_but_grads(self.nodes@, g),
                forall|j: int| 0 <= j < i ==> #[trigger] self.nodes@[j].grad == 0,
            decreases self.nodes@.len() - i,
        {
            self.nodes[i].grad = 0;
            i = i + 1;
        }
        proof {
            assert forall|j: int| 0 <= j < self.nodes@.len() implies #[trigger] node_wf(
                self.nodes@,
                j,
            ) by {
                assert(node_wf(g, j));
            }
        }
    }
}

} // verus!
