use micrograd::graph::{Arena, Op, Value};

fn leaf(g: &mut Arena, data: i64, name: &str) -> usize {
    g.leaf(data, Some(name.to_string()))
}

#[test]
fn forward_add_and_mul() {
    let mut g = Arena::new();
    let x = leaf(&mut g, 7, "x");
    let y = leaf(&mut g, -3, "y");
    let s = g.add(x, y);
    let p = g.mul(x, y);
    assert_eq!(g.node(s).data, 4);
    assert_eq!(g.node(p).data, -21);
    assert_eq!(g.node(s).op, Op::Add);
    assert_eq!(g.node(p).op, Op::Mul);
    assert_eq!(g.node(s).prev, vec![x, y]);
    assert_eq!(g.node(s).grad, 0);
    assert_eq!(g.node(s).label, None);
    assert_eq!(g.len(), 4);
}

#[test]
fn forward_wraps_on_overflow() {
    let mut g = Arena::new();
    let x = leaf(&mut g, i64::MAX, "x");
    let y = leaf(&mut g, 1, "y");
    let s = g.add(x, y);
    assert_eq!(g.node(s).data, i64::MIN);
    let p = g.mul(x, x);
    assert_eq!(g.node(p).data, 1);
}

#[test]
fn root_gradient_is_one() {
    let mut g = Arena::new();
    let x = leaf(&mut g, 5, "x");
    let y = leaf(&mut g, 6, "y");
    let p = g.mul(x, y);
    g.backward(p);
    assert_eq!(g.node(p).grad, 1);

    let mut h = Arena::new();
    let z = leaf(&mut h, 9, "z");
    h.backward(z);
    assert_eq!(h.node(z).grad, 1);
}

#[test]
fn additive_rule() {
    let mut g = Arena::new();
    let a = leaf(&mut g, 4, "a");
    let b = leaf(&mut g, -11, "b");
    let s = g.add(a, b);
    g.backward(s);
    assert_eq!(g.node(a).grad, 1);
    assert_eq!(g.node(b).grad, 1);
    assert_eq!(g.node(s).grad, 1);
}

#[test]
fn multiplicative_rule() {
    let mut g = Arena::new();
    let a = leaf(&mut g, 4, "a");
    let b = leaf(&mut g, -11, "b");
    let p = g.mul(a, b);
    g.backward(p);
    assert_eq!(g.node(a).grad, -11);
    assert_eq!(g.node(b).grad, 4);
}

#[test]
fn same_operand_twice() {
    let mut g = Arena::new();
    let a = leaf(&mut g, 3, "a");
    let s = g.add(a, a);
    g.backward(s);
    assert_eq!(g.node(a).grad, 2);

    let mut h = Arena::new();
    let b = leaf(&mut h, 3, "b");
    let p = h.mul(b, b);
    h.backward(p);
    assert_eq!(h.node(b).grad, 6);
}

fn diamond() -> (Arena, [usize; 5]) {
    let mut g = Arena::new();
    let a = leaf(&mut g, 2, "a");
    let b = leaf(&mut g, -3, "b");
    let c = g.mul(a, b);
    g.set_label(c, Some("c".to_string()));
    let d = g.add(a, b);
    g.set_label(d, Some("d".to_string()));
    let e = g.mul(c, d);
    g.set_label(e, Some("e".to_string()));
    (g, [a, b, c, d, e])
}

#[test]
fn shared_subexpression() {
    let (mut g, [a, b, c, d, e]) = diamond();
    assert_eq!(g.node(c).data, -6);
    assert_eq!(g.node(d).data, -1);
    assert_eq!(g.node(e).data, 6);
    g.backward(e);
    assert_eq!(g.node(e).grad, 1);
    assert_eq!(g.node(c).grad, -1);
    assert_eq!(g.node(d).grad, -6);
    assert_eq!(g.node(a).grad, -3);
    assert_eq!(g.node(b).grad, -8);
}

#[test]
fn each_reachable_node_listed_once() {
    let (g, [a, b, c, d, e]) = diamond();
    let order = g.topo_order(e);
    assert_eq!(order.len(), 5);
    for n in [a, b, c, d, e] {
        assert_eq!(order.iter().filter(|&&x| x == n).count(), 1);
    }
    assert_eq!(*order.last().unwrap(), e);
    let pos = |n: usize| order.iter().position(|&x| x == n).unwrap();
    assert!(pos(a) < pos(c) && pos(b) < pos(c));
    assert!(pos(a) < pos(d) && pos(b) < pos(d));
    assert!(pos(c) < pos(e) && pos(d) < pos(e));
}

#[test]
fn topo_order_skips_unreachable() {
    let mut g = Arena::new();
    let a = leaf(&mut g, 1, "a");
    let b = leaf(&mut g, 2, "b");
    let s = g.add(a, a);
    let _t = g.mul(s, b);
    let order = g.topo_order(s);
    assert_eq!(order, vec![a, s]);
}

#[test]
fn unreachable_gradients_untouched() {
    let mut g = Arena::new();
    let a = leaf(&mut g, 1, "a");
    let b = leaf(&mut g, 2, "b");
    let s = g.add(a, a);
    let t = g.mul(s, b);
    g.backward(s);
    assert_eq!(g.node(b).grad, 0);
    assert_eq!(g.node(t).grad, 0);
    assert_eq!(g.node(a).grad, 2);
}

#[test]
fn repeated_passes_keep_values() {
    let (mut g, ids) = diamond();
    let values: Vec<i64> = ids.iter().map(|&i| g.node(i).data).collect();
    g.backward(ids[4]);
    let first: Vec<i64> = ids.iter().map(|&i| g.node(i).grad).collect();
    g.zero_grad();
    assert!(ids.iter().all(|&i| g.node(i).grad == 0));
    g.backward(ids[4]);
    let second: Vec<i64> = ids.iter().map(|&i| g.node(i).grad).collect();
    let after: Vec<i64> = ids.iter().map(|&i| g.node(i).data).collect();
    assert_eq!(values, after);
    assert_eq!(first, second);
}

#[test]
fn stale_gradients_accumulate() {
    let mut g = Arena::new();
    let a = leaf(&mut g, 4, "a");
    let b = leaf(&mut g, 5, "b");
    let p = g.mul(a, b);
    g.backward(p);
    g.backward(p);
    assert_eq!(g.node(p).grad, 1);
    assert_eq!(g.node(a).grad, 10);
    assert_eq!(g.node(b).grad, 8);
}

fn end_to_end() -> (Arena, [usize; 7]) {
    let mut g = Arena::new();
    let a = leaf(&mut g, 2, "a");
    let b = leaf(&mut g, -3, "b");
    let c = leaf(&mut g, 10, "c");
    let f = leaf(&mut g, -2, "f");
    let e = g.mul(a, b);
    g.set_label(e, Some("e".to_string()));
    let d = g.add(e, c);
    g.set_label(d, Some("d".to_string()));
    let l = g.mul(d, f);
    g.set_label(l, Some("l".to_string()));
    (g, [a, b, c, f, e, d, l])
}

#[test]
fn end_to_end_scenario() {
    let (mut g, [a, b, c, f, e, d, l]) = end_to_end();
    assert_eq!(g.node(e).data, -6);
    assert_eq!(g.node(d).data, 4);
    assert_eq!(g.node(l).data, -8);
    g.backward(l);
    assert_eq!(g.node(l).grad, 1);
    assert_eq!(g.node(d).grad, -2);
    assert_eq!(g.node(f).grad, 4);
    assert_eq!(g.node(e).grad, -2);
    assert_eq!(g.node(c).grad, -2);
    assert_eq!(g.node(a).grad, 6);
    assert_eq!(g.node(b).grad, -4);
}

#[test]
fn local_rule_deltas() {
    let mul = Value { data: 15, grad: 7, prev: vec![0, 1], label: None, op: Op::Mul };
    assert_eq!(mul.backward(3, 5), (35, 21));
    let add = Value { data: 8, grad: 7, prev: vec![0, 1], label: None, op: Op::Add };
    assert_eq!(add.backward(3, 5), (7, 7));
    let leaf = Value { data: 3, grad: 7, prev: vec![], label: None, op: Op::Leaf };
    assert_eq!(leaf.backward(3, 5), (0, 0));
}
