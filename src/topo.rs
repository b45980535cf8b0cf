//! Topological order of the nodes reachable from a root, by depth-first
//! postorder.
use vstd::prelude::*;
use crate::graph::{Arena, Op, Value, graph_wf, node_wf, is_operand, reaches, left, right,
    lemma_reaches_earlier, lemma_reaches_through_operand};

verus! {

/// `order` lists distinct nodes of `g`, each after its operands, and holds
/// the operands of every node it lists.
pub open spec fn is_postorder(g: Seq<Value>, order: Seq<usize>) -> bool {
    &&& order.no_duplicates()
    &&& forall|k: int| 0 <= k < order.len() ==> #[trigger] order[k] < g.len()
    &&& forall|j: int, c: int|
        0 <= j < order.len() && #[trigger] is_operand(g, order[j] as int, c)
            ==> order.contains(c as usize)
    &&& forall|j: int, k: int|
        0 <= j < order.len() && 0 <= k < order.len() && #[trigger] is_operand(
            g,
            order[j] as int,
            order[k] as int,
        ) ==> k < j
}

/// Depth-first search from `n`, starting from the listing `o`: when `n` is
/// not listed yet, its left operand is searched, then its right one, then
/// `n` itself is listed.
pub open spec fn dfs_from(g: Seq<Value>, n: usize, o: Seq<usize>) -> Seq<usize>
    decreases n,
{
    if o.contains(n) || n >= g.len() {
        o
    } else if g[n as int].op != Op::Leaf && g[n as int].prev@.len() == 2 && g[n as int].prev@[0]
        < n && g[n as int].prev@[1] < n {
        let l = g[n as int].prev@[0];
        let r = g[n as int].prev@[1];
        dfs_from(g, r, dfs_from(g, l, o)).push(n)
    } else {
        o.push(n)
    }
}

/// The state of the search: `seen` marks exactly the nodes listed in `order`.
pub open spec fn search_state(g: Seq<Value>, seen: Seq<bool>, order: Seq<usize>) -> bool {
    &&& seen.len() == g.len()
    &&& is_postorder(g, order)
    &&& forall|i: int| 0 <= i < g.len() ==> (#[trigger] seen[i] <==> order.contains(i as usize))
}

/// A postorder that lists `from` lists everything `from` reaches.
pub proof fn lemma_postorder_closed(g: Seq<Value>, order: Seq<usize>, from: int, to: int)
    requires
        graph_wf(g),
        is_postorder(g, order),
        0 <= from,
        order.contains(from as usize),
        reaches(g, from, to),
    ensures
        order.contains(to as usize),
    decreases from,
{
    lemma_reaches_earlier(g, from, to);
    if from != to {
        assert(node_wf(g, from));
        let j = order.index_of(from as usize);
        assert(is_operand(g, order[j] as int, left(g, from)));
        assert(is_operand(g, order[j] as int, right(g, from)));
        if reaches(g, left(g, from), to) {
            lemma_postorder_closed(g, order, left(g, from), to);
        } else {
            lemma_postorder_closed(g, order, right(g, from), to);
        }
    }
}

/// In a postorder, whatever a listed node reaches is listed no later.
proof fn lemma_postorder_descends(g: Seq<Value>, order: Seq<usize>, j: int, k: int)
    requires
        graph_wf(g),
        is_postorder(g, order),
        0 <= j < order.len(),
        0 <= k < order.len(),
        reaches(g, order[j] as int, order[k] as int),
    ensures
        k <= j,
    decreases order[j],
{
    let from = order[j] as int;
    let to = order[k] as int;
    if from == to {
        assert(order.no_duplicates());
    } else {
        assert(node_wf(g, from));
        let l = left(g, from);
        let r = right(g, from);
        assert(is_operand(g, order[j] as int, l));
        assert(is_operand(g, order[j] as int, r));
        let c = if reaches(g, l, to) { l } else { r };
        assert(order.contains(c as usize));
        let i = order.index_of(c as usize);
        assert(is_operand(g, order[j] as int, order[i] as int));
        lemma_postorder_descends(g, order, i, k);
    }
}

impl Arena {
    /// Depth-first search from `n`: lists, in postorder, every node that `n`
    /// reaches and that is not yet listed.
    fn visit(&self, n: usize, seen: &mut Vec<bool>, order: &mut Vec<usize>)
        requires
            self.wf(),
            n < self.nodes@.len(),
            search_state(self.nodes@, old(seen)@, old(order)@),
        ensures
            search_state(self.nodes@, final(seen)@, final(order)@),
            final(order)@ == dfs_from(self.nodes@, n, old(order)@),
            final(order)@.contains(n),
            final(order)@.take(old(order)@.len() as int) == old(order)@,
            final(order)@.len() >= old(order)@.len(),
            forall|k: int|
                old(order)@.len() <= k < final(order)@.len() ==> reaches(
                    self.nodes@,
                    n as int,
                    #[trigger] final(order)@[k] as int,
                ),
        decreases n,
    {
        let ghost g = self.nodes@;
        if seen[n] {
            assert(order@.take(order@.len() as int) =~= order@);
            return;
        }
        let ghost start = order@;
        proof {
            assert(node_wf(g, n as int));
        }
        if self.nodes[n].op != Op::Leaf {
            let l = self.nodes[n].prev[0];
            let r = self.nodes[n].prev[1];
            self.visit(l, seen, order);
            let ghost mid = order@;
            self.visit(r, seen, order);
            proof {
                assert(is_operand(g, n as int, l as int));
                assert(is_operand(g, n as int, r as int));
                assert forall|k: int| start.len() <= k < order@.len() implies #[trigger] order@[k]
                    < n by {
                    if k < mid.len() {
                        assert(order@.take(mid.len() as int)[k] == order@[k]);
                        lemma_reaches_earlier(g, l as int, order@[k] as int);
                    } else {
                        lemma_reaches_earlier(g, r as int, order@[k] as int);
                    }
                }
                assert forall|k: int| start.len() <= k < order@.len() implies reaches(
                    g,
                    n as int,
                    #[trigger] order@[k] as int,
                ) by {
                    if k < mid.len() {
                        assert(order@.take(mid.len() as int)[k] == order@[k]);
                        lemma_reaches_through_operand(g, n as int, l as int, order@[k] as int);
                    } else {
                        lemma_reaches_through_operand(g, n as int, r as int, order@[k] as int);
                    }
                }
                assert(order@.take(start.len() as int) =~= start) by {
                    assert(order@.take(mid.len() as int).take(start.len() as int)
                        =~= order@.take(start.len() as int));
                }
                assert(mid.contains(l));
                assert(order@.contains(l)) by {
                    let i = mid.index_of(l);
                    assert(order@.take(mid.len() as int)[i] == l);
                }
            }
        }
        proof {
            assert(forall|k: int| start.len() <= k < order@.len() ==> #[trigger] order@[k] < n);
            assert(!order@.contains(n)) by {
                if order@.contains(n) {
                    let k = order@.index_of(n);
                    if k < start.len() {
                        assert(order@.take(start.len() as int)[k] == n);
                        assert(start.contains(n));
                    }
                }
            }
        }
        let ghost before = order@;
        order.push(n);
        seen.set(n, true);
        proof {
            let o = order@;
            assert(o.take(before.len() as int) =~= before);
            assert(o.take(start.len() as int) =~= start) by {
                assert(o.take(before.len() as int).take(start.len() as int)
                    =~= o.take(start.len() as int));
            }
            assert(forall|k: int| 0 <= k < before.len() ==> o[k] == before[k]);
            assert(o[before.len() as int] == n);
            assert forall|i: int| 0 <= i < g.len() implies (#[trigger] seen@[i] <==> o.contains(
                i as usize,
            )) by {
                if o.contains(i as usize) && i != n {
                    let k = o.index_of(i as usize);
                    assert(before[k] == i);
                }
                if before.contains(i as usize) {
                    let k = before.index_of(i as usize);
                    assert(o[k] == i);
                }
            }
            assert forall|j: int, c: int|
                0 <= j < o.len() && #[trigger] is_operand(g, o[j] as int, c) implies o.contains(
                c as usize,
            ) by {
                if j < before.len() {
                    assert(is_operand(g, before[j] as int, c));
                    let k = before.index_of(c as usize);
                    assert(o[k] == c);
                } else {
                    assert(o[j] == n);
                    if self.nodes@[n as int].op == Op::Leaf {
                        assert(false);
                    }
                }
            }
            assert forall|j: int, k: int|
                0 <= j < o.len() && 0 <= k < o.len() && #[trigger] is_operand(
                    g,
                    o[j] as int,
                    o[k] as int,
                ) implies k < j by {
                if j < before.len() && k == before.len() {
                    assert(is_operand(g, before[j] as int, n as int));
                    assert(before.contains(n));
                }
                if j == before.len() && k == before.len() {
                    assert(node_wf(g, n as int));
                }
            }
        }
    }

    /// The nodes that `root` reaches, each listed once and after all of its
    /// operands; `root` comes last. Read backwards, this is an order in which
    /// every node comes after all of its reachable parents.
    pub fn topo_order(&self, root: usize) -> (order: Vec<usize>)
        requires
            self.wf(),
            root < self.nodes@.len(),
        ensures
            is_postorder(self.nodes@, order@),
            forall|x: int|
                0 <= x < self.nodes@.len() ==> (order@.contains(x as usize) <==> reaches(
                    self.nodes@,
                    root as int,
                    x,
                )),
            order@ == dfs_from(self.nodes@, root, Seq::empty()),
            order@.len() > 0,
            order@.last() == root,
    {
        let ghost g = self.nodes@;
        let mut seen: Vec<bool> = Vec::new();
        let mut i: usize = 0;
        while i < self.nodes.len()
            invariant
                i <= g.len(),
                g == self.nodes@,
                seen@.len() == i,
                forall|k: int| 0 <= k < i ==> !#[trigger] seen@[k],
            decreases g.len() - i,
        {
            seen.push(false);
            i = i + 1;
        }
        let mut order: Vec<usize> = Vec::new();
        self.visit(root, &mut seen, &mut order);
        proof {
            assert forall|x: int| 0 <= x < g.len() implies (order@.contains(x as usize)
                <==> reaches(g, root as int, x)) by {
                if order@.contains(x as usize) {
                    let k = order@.index_of(x as usize);
                    assert(reaches(g, root as int, order@[k] as int));
                }
                if reaches(g, root as int, x) {
                    lemma_postorder_closed(g, order@, root as int, x);
                }
            }
            let last = order@.len() - 1;
            let v = order@[last];
            assert(reaches(g, root as int, v as int));
            if v != root {
                // root is listed after everything it reaches
                let k = order@.index_of(root);
                lemma_reaches_earlier(g, root as int, v as int);
                lemma_postorder_descends(g, order@, k, last);
            }
        }
        order
    }
}

} // verus!
