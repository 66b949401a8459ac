use autograd::arena::Op;
use autograd::graph::{get_or_fail, GradError, NodeId, Session, Value};

fn sum(s: &mut Session, a: NodeId, b: NodeId) -> NodeId {
    autograd::graph::add(s, a, b).unwrap()
}

#[test]
fn leaf_holds_data_and_zero_grad() {
    let mut s = Session::start();
    for x in [0i64, 7, -3, i64::MAX, i64::MIN] {
        let a = s.value(x);
        assert_eq!(s.data(a), Ok(x));
        assert_eq!(s.grad(a), Ok(0));
        assert_eq!(s.lookup(a), Ok(Value { data: x, grad: 0, op: Op::Leaf }));
    }
}

#[test]
fn add_sums_data() {
    let mut s = Session::start();
    let a = s.value(-4);
    let b = s.value(10);
    let c = sum(&mut s, a, b);
    assert_eq!(s.data(c), Ok(6));
    assert_eq!(s.lookup(c), Ok(Value { data: 6, grad: 0, op: Op::Add(a.index, b.index) }));
}

#[test]
fn backward_seeds_root() {
    let mut s = Session::start();
    let a = s.value(5);
    assert_eq!(s.backward(a), Ok(()));
    assert_eq!(s.grad(a), Ok(1));
}

#[test]
fn add_gradients_are_one() {
    let mut s = Session::start();
    let a = s.value(1);
    let b = s.value(2);
    let c = sum(&mut s, a, b);
    assert_eq!(s.backward(c), Ok(()));
    assert_eq!(s.grad(a), Ok(1));
    assert_eq!(s.grad(b), Ok(1));
}

#[test]
fn reused_operand_accumulates() {
    let mut s = Session::start();
    let a = s.value(3);
    let e = sum(&mut s, a, a);
    assert_eq!(s.data(e), Ok(6));
    assert_eq!(s.backward(e), Ok(()));
    assert_eq!(s.grad(a), Ok(2));
    assert_eq!(s.grad(e), Ok(1));
}

#[test]
fn chain_accumulates() {
    let mut s = Session::start();
    let a = s.value(1);
    let b = s.value(2);
    let c = s.value(3);
    let s1 = sum(&mut s, a, b);
    let s2 = sum(&mut s, s1, c);
    assert_eq!(s.data(s2), Ok(6));
    assert_eq!(s.backward(s2), Ok(()));
    assert_eq!(s.grad(a), Ok(1));
    assert_eq!(s.grad(b), Ok(1));
    assert_eq!(s.grad(c), Ok(1));
    assert_eq!(s.grad(s1), Ok(1));
    assert_eq!(s.grad(s2), Ok(1));
}

#[test]
fn diamond_counts_every_path() {
    let mut s = Session::start();
    let a = s.value(1);
    let b = sum(&mut s, a, a);
    let c = sum(&mut s, a, b);
    let d = sum(&mut s, b, c);
    assert_eq!(s.data(d), Ok(5));
    assert_eq!(s.backward(d), Ok(()));
    assert_eq!(s.grad(d), Ok(1));
    assert_eq!(s.grad(c), Ok(1));
    assert_eq!(s.grad(b), Ok(2));
    assert_eq!(s.grad(a), Ok(5));
}

#[test]
fn backward_leaves_unrelated_nodes_alone() {
    let mut s = Session::start();
    let a = s.value(1);
    let b = s.value(2);
    let c = sum(&mut s, a, a);
    let d = sum(&mut s, c, b);
    assert_eq!(s.backward(c), Ok(()));
    assert_eq!(s.grad(a), Ok(2));
    assert_eq!(s.grad(b), Ok(0));
    assert_eq!(s.grad(d), Ok(0));
}

#[test]
fn cross_session_add_is_rejected() {
    let mut s1 = Session::start();
    let mut s2 = Session::start();
    let a = s1.value(1);
    let b = s2.value(2);
    assert_eq!(autograd::graph::add(&mut s1, a, b), Err(GradError::CrossSessionOperation));
    assert_eq!(autograd::graph::add(&mut s2, a, b), Err(GradError::CrossSessionOperation));
    let b2 = s2.value(3);
    assert_eq!(autograd::graph::add(&mut s1, b, b2), Err(GradError::CrossSessionOperation));
    assert_eq!(s2.data(b2), Ok(3));
}

#[test]
fn foreign_handle_is_not_found() {
    let mut s1 = Session::with_tag(1);
    let mut s2 = Session::with_tag(2);
    let a = s1.value(1);
    let _ = s2.value(1);
    assert_eq!(s2.data(a), Err(GradError::NodeNotFound));
    assert_eq!(s2.backward(a), Err(GradError::NodeNotFound));
    let stale = NodeId { session: 1, index: 5 };
    assert_eq!(s1.grad(stale), Err(GradError::NodeNotFound));
    assert_eq!(autograd::graph::add(&mut s1, a, stale), Err(GradError::NodeNotFound));
    assert_eq!(s1.order(stale), Err(GradError::NodeNotFound));
    assert_eq!(s1.set_grad(stale, 1), Err(GradError::NodeNotFound));
}

#[test]
fn add_overflow_is_reported() {
    let mut s = Session::start();
    let a = s.value(i64::MAX);
    let b = s.value(1);
    assert_eq!(autograd::graph::add(&mut s, a, b), Err(GradError::Overflow));
    let c = s.value(i64::MIN);
    let d = s.value(-1);
    assert_eq!(autograd::graph::add(&mut s, c, d), Err(GradError::Overflow));
    let e = sum(&mut s, a, c);
    assert_eq!(s.data(e), Ok(-1));
}

#[test]
fn gradient_overflow_is_reported_and_changes_nothing() {
    let mut s = Session::start();
    let a = s.value(1);
    let b = s.value(2);
    let c = sum(&mut s, a, b);
    assert_eq!(s.set_grad(a, u64::MAX), Ok(()));
    assert_eq!(s.backward(c), Err(GradError::Overflow));
    assert_eq!(s.grad(a), Ok(u64::MAX));
    assert_eq!(s.grad(b), Ok(0));
    assert_eq!(s.grad(c), Ok(0));
}

#[test]
fn add_grad_accumulates_and_checks() {
    let mut s = Session::start();
    let a = s.value(1);
    assert_eq!(s.add_grad(a, 3), Ok(()));
    assert_eq!(s.add_grad(a, 4), Ok(()));
    assert_eq!(s.grad(a), Ok(7));
    assert_eq!(s.add_grad(a, u64::MAX), Err(GradError::Overflow));
    assert_eq!(s.grad(a), Ok(7));
}

#[test]
fn zero_grad_makes_backward_repeatable() {
    let mut s = Session::start();
    let a = s.value(1);
    let b = s.value(2);
    let c = sum(&mut s, a, b);
    let d = sum(&mut s, c, a);
    assert_eq!(s.backward(d), Ok(()));
    let first: Vec<u64> = [a, b, c, d].iter().map(|h| s.grad(*h).unwrap()).collect();
    assert_eq!(first, vec![2, 1, 1, 1]);
    s.zero_grad();
    for h in [a, b, c, d] {
        assert_eq!(s.grad(h), Ok(0));
    }
    assert_eq!(s.backward(d), Ok(()));
    let second: Vec<u64> = [a, b, c, d].iter().map(|h| s.grad(*h).unwrap()).collect();
    assert_eq!(first, second);
}

#[test]
fn backward_without_reset_accumulates() {
    let mut s = Session::start();
    let a = s.value(1);
    let b = s.value(2);
    let c = sum(&mut s, a, b);
    assert_eq!(s.backward(c), Ok(()));
    assert_eq!(s.backward(c), Ok(()));
    assert_eq!(s.grad(a), Ok(2));
    assert_eq!(s.grad(b), Ok(2));
    assert_eq!(s.grad(c), Ok(1));
}

#[test]
fn two_plus_three() {
    let mut s = Session::start();
    let a = s.value(2);
    let b = s.value(3);
    let c = sum(&mut s, a, b);
    assert_eq!(s.data(c).unwrap() as f32, 5.0);
    assert_eq!(s.backward(c), Ok(()));
    assert_eq!(s.grad(a).unwrap() as f32, 1.0);
    assert_eq!(s.grad(b).unwrap() as f32, 1.0);
    assert_eq!(s.grad(c).unwrap() as f32, 1.0);
}

#[test]
fn order_lists_dependencies_first() {
    let mut s = Session::start();
    let a = s.value(1);
    let unused = s.value(9);
    let b = s.value(2);
    let c = sum(&mut s, a, b);
    let d = sum(&mut s, c, a);
    let ids: Vec<usize> = s.order(d).unwrap().iter().map(|h| h.index).collect();
    assert_eq!(ids, vec![a.index, b.index, c.index, d.index]);
    assert!(!ids.contains(&unused.index));
    assert_eq!(s.order(a).unwrap(), vec![a]);
}

#[test]
fn get_or_fail_unwraps() {
    assert_eq!(get_or_fail(Some(4u8)), 4);
}
