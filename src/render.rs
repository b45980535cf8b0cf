//! A drawing of the graph reachable from a root, as a petgraph directed
//! graph: one box per node, showing its name, value and gradient, and for
//! each binary node an operator box between its operands and itself.
use vstd::prelude::*;
use crate::graph::{Arena, Op, Value, graph_wf, node_wf, is_operand};
use crate::topo::{is_postorder, dfs_from};
use crate::drawing::{Drawing, drawn_nodes, drawn_edges, node_text_of, drawing_new, drawing_add_node,
    drawing_add_edge, node_text};

verus! {

/// The name shown for a node: its label, or `--` without one.
pub open spec fn shown_label(label: Option<String>) -> Seq<char> {
    match label {
        Some(s) => s@,
        None => seq!['-', '-'],
    }
}

/// The text of the operator box of a binary node.
pub open spec fn op_text(op: Op) -> Seq<char> {
    match op {
        Op::Add => seq!['+'],
        Op::Mul => seq!['*'],
        Op::Leaf => Seq::empty(),
    }
}

/// The text of the box of node `v`.
pub open spec fn box_text(v: Value) -> Seq<char> {
    node_text_of(shown_label(v.label), v.data, v.grad)
}

/// The boxes drawn for the nodes listed in `o`, in turn: each node's own box,
/// followed for a binary node by its operator box.
pub open spec fn shown_nodes(g: Seq<Value>, o: Seq<usize>) -> Seq<Seq<char>>
    decreases o.len(),
{
    if o.len() == 0 {
        Seq::empty()
    } else {
        let v = g[o.last() as int];
        let before = shown_nodes(g, o.drop_last()).push(box_text(v));
        if v.op == Op::Leaf {
            before
        } else {
            before.push(op_text(v.op))
        }
    }
}

/// The index of the box of node `h` among the boxes drawn for `o`.
pub open spec fn box_at(g: Seq<Value>, o: Seq<usize>, h: usize) -> int
    decreases o.len(),
{
    if o.len() == 0 {
        0
    } else if o.last() == h {
        shown_nodes(g, o.drop_last()).len() as int
    } else {
        box_at(g, o.drop_last(), h)
    }
}

/// The edges drawn for the nodes listed in `o`: for each binary node, from
/// its operator box to its own box, then from the box of its left and of its
/// right operand to its operator box.
pub open spec fn shown_edges(g: Seq<Value>, o: Seq<usize>) -> Seq<(nat, nat)>
    decreases o.len(),
{
    if o.len() == 0 {
        Seq::empty()
    } else {
        let n = o.last() as int;
        let v = g[n];
        let p = o.drop_last();
        let at = shown_nodes(g, p).len();
        if v.op == Op::Leaf {
            shown_edges(g, p)
        } else {
            shown_edges(g, p) + seq![
                ((at + 1) as nat, at as nat),
                (box_at(g, p, v.prev@[0]) as nat, (at + 1) as nat),
                (box_at(g, p, v.prev@[1]) as nat, (at + 1) as nat),
            ]
        }
    }
}

/// The box of a listed node is one of the boxes drawn.
pub proof fn lemma_box_drawn(g: Seq<Value>, o: Seq<usize>, h: usize)
    requires
        o.contains(h),
    ensures
        0 <= box_at(g, o, h) < shown_nodes(g, o).len(),
    decreases o.len(),
{
    if o.last() != h {
        let i = o.index_of(h);
        assert(o.drop_last()[i] == h);
        lemma_box_drawn(g, o.drop_last(), h);
    }
}

impl Arena {
    /// Draws the nodes listed in `order`, in turn: each node's box, and for a
    /// binary node its operator box, an edge from it to the node's box and an
    /// edge to it from the box of each operand.
    pub fn render(&self, order: &Vec<usize>) -> (d: Drawing)
        requires
            self.wf(),
            is_postorder(self.nodes@, order@),
        ensures
            drawn_nodes(d) == shown_nodes(self.nodes@, order@),
            drawn_edges(d) == shown_edges(self.nodes@, order@),
    {
        let ghost g = self.nodes@;
        let mut d = drawing_new();
        let mut place: Vec<usize> = Vec::new();
        let mut i: usize = 0;
        while i < self.nodes.len()
            invariant
                i <= g.len(),
                g == self.nodes@,
                place@.len() == i,
            decreases g.len() - i,
        {
            place.push(0);
            i = i + 1;
        }
        let mut k: usize = 0;
        while k < order.len()
            invariant
                k <= order@.len(),
                g == self.nodes@,
                graph_wf(g),
                is_postorder(g, order@),
                place@.len() == g.len(),
                drawn_nodes(d) == shown_nodes(g, order@.take(k as int)),
                drawn_edges(d) == shown_edges(g, order@.take(k as int)),
                forall|j: int|
                    0 <= j < k ==> place@[#[trigger] order@[j] as int] == box_at(
                        g,
                        order@.take(k as int),
                        order@[j],
                    ),
            decreases order@.len() - k,
        {
            let ghost p = order@.take(k as int);
            let ghost q = order@.take(k + 1);
            let n = order[k];
            proof {
                assert(q.drop_last() =~= p);
                assert(q.last() == n);
                assert(node_wf(g, n as int));
            }
            let v = &self.nodes[n];
            let text = match &v.label {
                Some(s) => {
                    let t = node_text(s.as_str(), v.data, v.grad);
                    assert(shown_label(v.label) == s@);
                    t
                },
                None => {
                    proof {
                        reveal_strlit("--");
                    }
                    let t = node_text("--", v.data, v.grad);
                    assert("--"@ =~= shown_label(v.label));
                    t
                },
            };
            assert(text@ == box_text(g[n as int]));
            let b = drawing_add_node(&mut d, text);
            if v.op != Op::Leaf {
                let sym = match v.op {
                    Op::Add => {
                        proof {
                            reveal_strlit("+");
                        }
                        "+".to_owned()
                    },
                    Op::Mul => {
                        proof {
                            reveal_strlit("*");
                        }
                        "*".to_owned()
                    },
                    Op::Leaf => String::new(),
                };
                assert(sym@ == op_text(v.op));
                let o = drawing_add_node(&mut d, sym);
                drawing_add_edge(&mut d, o, b);
                let l = v.prev[0];
                let r = v.prev[1];
                proof {
                    assert(is_operand(g, order@[k as int] as int, l as int));
                    assert(is_operand(g, order@[k as int] as int, r as int));
                    let il = order@.index_of(l);
                    let ir = order@.index_of(r);
                    assert(is_operand(g, order@[k as int] as int, order@[il] as int));
                    assert(is_operand(g, order@[k as int] as int, order@[ir] as int));
                    assert(p[il] == l && p[ir] == r);
                    lemma_box_drawn(g, p, l);
                    lemma_box_drawn(g, p, r);
                }
                drawing_add_edge(&mut d, place[l], o);
                drawing_add_edge(&mut d, place[r], o);
                proof {
                    assert(drawn_edges(d) =~= shown_edges(g, q));
                }
            }
            assert(drawn_nodes(d) =~= shown_nodes(g, q));
            place.set(n, b);
            proof {
                assert forall|j: int| 0 <= j < k + 1 implies place@[#[trigger] order@[j] as int]
                    == box_at(g, q, order@[j]) by {
                    if j < k {
                        assert(order@[j] != n);
                        assert(p[j] == order@[j]);
                    }
                }
            }
            k = k + 1;
        }
        proof {
            assert(order@.take(order@.len() as int) =~= order@);
        }
        d
    }

    /// Draws the graph that `root` reaches, each node once (nodes are told
    /// apart by handle, never by their text), in the order that
    /// `topo_order` lists them, so operands come before the nodes that use
    /// them.
    pub fn build_nodes_and_edges(&self, root: usize) -> (d: Drawing)
        requires
            self.wf(),
            root < self.nodes@.len(),
        ensures
            drawn_nodes(d) == shown_nodes(self.nodes@, dfs_from(self.nodes@, root, Seq::empty())),
            drawn_edges(d) == shown_edges(self.nodes@, dfs_from(self.nodes@, root, Seq::empty())),
    {
        let order = self.topo_order(root);
        self.render(&order)
    }
}

} // verus!
