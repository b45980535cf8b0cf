//! The drawing surface: a petgraph directed graph of text boxes, and the
//! calls made on it.
use vstd::prelude::*;
use petgraph::graph::NodeIndex;

verus! {

#[verifier::external_type_specification]
#[verifier::external_body]
#[verifier::reject_recursive_types(N)]
#[verifier::reject_recursive_types(E)]
#[verifier::reject_recursive_types(Ty)]
#[verifier::reject_recursive_types(Ix)]
pub struct ExPetGraph<N, E, Ty, Ix>(petgraph::Graph<N, E, Ty, Ix>);

#[verifier::external_type_specification]
#[verifier::external_body]
pub struct ExDirected(petgraph::Directed);

/// The drawing: a directed petgraph graph of text boxes, indexed by `usize`.
pub type Drawing = petgraph::Graph<String, (), petgraph::Directed, usize>;

/// The texts of the boxes of a drawing, in the order they were added (a
/// box's position is its petgraph index).
pub uninterp spec fn drawn_nodes(d: Drawing) -> Seq<Seq<char>>;

/// The edges of a drawing, as (source, target) box indices, in the order
/// they were added.
pub uninterp spec fn drawn_edges(d: Drawing) -> Seq<(nat, nat)>;

/// The text that a node's box shows for the name `label`, the value `data`
/// and the gradient `grad`.
pub uninterp spec fn node_text_of(label: Seq<char>, data: i64, grad: i64) -> Seq<char>;

/// Relies on petgraph's `Graph::with_capacity`: a graph with no nodes and no
/// edges.
#[verifier::external_body]
pub(crate) fn drawing_new() -> (d: Drawing)
    ensures
        drawn_nodes(d) == Seq::<Seq<char>>::empty(),
        drawn_edges(d) == Seq::<(nat, nat)>::empty(),
{
    petgraph::Graph::with_capacity(0, 0)
}

/// Relies on petgraph's `Graph::add_node`: appends a node holding `w` and
/// returns its index, the former node count (no panic with `usize` indices).
#[verifier::external_body]
pub(crate) fn drawing_add_node(d: &mut Drawing, w: String) -> (r: usize)
    ensures
        r == drawn_nodes(*old(d)).len(),
        drawn_nodes(*final(d)) == drawn_nodes(*old(d)).push(w@),
        drawn_edges(*final(d)) == drawn_edges(*old(d)),
{
    d.add_node(w).index()
}

/// Relies on petgraph's `Graph::add_edge`: appends an edge from node `a` to
/// node `b`; it panics only when one of them does not exist.
#[verifier::external_body]
pub(crate) fn drawing_add_edge(d: &mut Drawing, a: usize, b: usize)
    requires
        a < drawn_nodes(*old(d)).len(),
        b < drawn_nodes(*old(d)).len(),
    ensures
        drawn_nodes(*final(d)) == drawn_nodes(*old(d)),
        drawn_edges(*final(d)) == drawn_edges(*old(d)).push((a as nat, b as nat)),
{
    d.add_edge(NodeIndex::new(a), NodeIndex::new(b), ());
}

/// Relies on std's `format!`: the text of a node's box.
#[verifier::external_body]
pub(crate) fn node_text(label: &str, data: i64, grad: i64) -> (r: String)
    ensures
        r@ == node_text_of(label@, data, grad),
{
    format!("{} | data={} |  grad={}", label, data, grad)
}

} // verus!
