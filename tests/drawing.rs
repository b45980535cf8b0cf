use micrograd::graph::Arena;
use petgraph::graph::NodeIndex;

fn end_to_end() -> (Arena, usize) {
    let mut g = Arena::new();
    let a = g.leaf(2, Some("a".to_string()));
    let b = g.leaf(-3, Some("b".to_string()));
    let c = g.leaf(10, Some("c".to_string()));
    let f = g.leaf(-2, Some("f".to_string()));
    let e = g.mul(a, b);
    g.set_label(e, Some("e".to_string()));
    let d = g.add(e, c);
    g.set_label(d, Some("d".to_string()));
    let l = g.mul(d, f);
    g.set_label(l, Some("l".to_string()));
    (g, l)
}

#[test]
fn drawing_counts_boxes_and_edges() {
    let (mut g, l) = end_to_end();
    g.backward(l);
    let d = g.build_nodes_and_edges(l);
    assert_eq!(d.node_count(), 10);
    assert_eq!(d.edge_count(), 9);
    let texts: Vec<&String> = d.node_weights().collect();
    assert!(texts.iter().any(|t| t.as_str() == "a | data=2 |  grad=6"));
    assert!(texts.iter().any(|t| t.as_str() == "l | data=-8 |  grad=1"));
    assert_eq!(texts.iter().filter(|t| t.as_str() == "*").count(), 2);
    assert_eq!(texts.iter().filter(|t| t.as_str() == "+").count(), 1);
}

#[test]
fn drawing_shares_a_node_once() {
    let mut g = Arena::new();
    let a = g.leaf(2, Some("a".to_string()));
    let b = g.leaf(2, Some("a".to_string()));
    let c = g.mul(a, b);
    let d = g.add(a, c);
    let dr = g.build_nodes_and_edges(d);
    // two leaves with equal text stay two boxes; `a` is drawn once
    assert_eq!(dr.node_count(), 6);
    assert_eq!(dr.edge_count(), 6);
}

#[test]
fn drawing_of_a_leaf_and_unnamed_node() {
    let mut g = Arena::new();
    let a = g.leaf(4, None);
    let dr = g.build_nodes_and_edges(a);
    assert_eq!(dr.node_count(), 1);
    assert_eq!(dr.edge_count(), 0);
    assert_eq!(dr[NodeIndex::new(0)], "-- | data=4 |  grad=0");
}

#[test]
fn drawing_edges_point_towards_the_result() {
    let mut g = Arena::new();
    let x = g.leaf(1, Some("x".to_string()));
    let y = g.leaf(2, Some("y".to_string()));
    let s = g.add(x, y);
    let order = g.topo_order(s);
    let dr = g.render(&order);
    let w: Vec<&String> = dr.node_weights().collect();
    assert_eq!(w.len(), 4);
    assert_eq!(w[0], "x | data=1 |  grad=0");
    assert_eq!(w[1], "y | data=2 |  grad=0");
    assert_eq!(w[2], "-- | data=3 |  grad=0");
    assert_eq!(w[3], "+");
    let edges: Vec<(usize, usize)> =
        dr.raw_edges().iter().map(|e| (e.source().index(), e.target().index())).collect();
    assert_eq!(edges, vec![(3, 2), (0, 3), (1, 3)]);
}
