use autodiff::backward::Contribution;
use autodiff::store::{OpKind, Store};

fn step(consumer: usize, slot: usize, operand: usize) -> Contribution {
    Contribution { consumer, slot, operand }
}

/// Applies a schedule with the gradient rules of each operation on `f32`.
fn run_steps(s: &mut Store<f32>, steps: &[Contribution]) {
    for st in steps {
        let out = st.consumer;
        let ops = s.operands_of(out);
        let dout = s.gradient_of(out);
        let a = s.value_of(ops[0]);
        let share = match (s.kind_of(out), st.slot) {
            (Some(OpKind::Add), _) => dout,
            (Some(OpKind::Multiply), 0) => s.value_of(ops[1]) * dout,
            (Some(OpKind::Multiply), _) => a * dout,
            (Some(OpKind::Power), 0) => {
                let b = s.value_of(ops[1]);
                b * a.powf(b - 1.0) * dout
            }
            (Some(OpKind::Power), _) => s.value_of(out) * a.ln() * dout,
            (Some(OpKind::Relu), _) => if a > 0.0 { dout } else { 0.0 },
            (None, _) => unreachable!(),
        };
        let g = s.gradient_of(st.operand);
        s.set_gradient(st.operand, g + share);
    }
}

#[test]
fn order_is_reachable_set_by_descending_id() {
    let mut s: Store<f32> = Store::new(0.0, 1.0);
    let a = s.create_leaf(1.0);
    let b = s.create_leaf(2.0);
    let unused = s.create_leaf(3.0);
    let c = s.create_op(OpKind::Add, vec![a, b], 3.0);
    let d = s.create_op(OpKind::Multiply, vec![c, a], 3.0);
    let _after = s.create_op(OpKind::Relu, vec![d], 3.0);
    assert_eq!(s.backward_order(d), vec![d, c, b, a]);
    assert_eq!(s.backward_order(c), vec![c, b, a]);
    assert_eq!(s.backward_order(unused), vec![unused]);
}

#[test]
fn schedule_lists_each_operand_slot() {
    let mut s: Store<f32> = Store::new(0.0, 1.0);
    let a = s.create_leaf(1.0);
    let b = s.create_leaf(2.0);
    let c = s.create_op(OpKind::Add, vec![a, b], 3.0);
    let d = s.create_op(OpKind::Multiply, vec![c, a], 3.0);
    assert_eq!(
        s.backward_schedule(d),
        vec![step(d, 0, c), step(d, 1, a), step(c, 0, a), step(c, 1, b)]
    );
}

#[test]
fn fan_out_accumulates() {
    let mut s: Store<f32> = Store::new(0.0, 1.0);
    let x = s.create_leaf(3.0);
    let p = s.create_op(OpKind::Multiply, vec![x, x], 9.0);
    s.reset_gradients();
    let steps = s.begin_backward(p);
    assert_eq!(steps, vec![step(p, 0, x), step(p, 1, x)]);
    assert_eq!(s.gradient_of(p), 1.0);
    run_steps(&mut s, &steps);
    assert_eq!(s.gradient_of(x), 2.0 * s.value_of(x));
}

#[test]
fn backward_on_leaf_only_seeds_it() {
    let mut s: Store<f32> = Store::new(0.0, 1.0);
    let x = s.create_leaf(3.0);
    let y = s.create_leaf(4.0);
    let z = s.create_op(OpKind::Add, vec![x, y], 7.0);
    s.set_gradient(x, 0.5);
    let steps = s.begin_backward(y);
    assert!(steps.is_empty());
    assert_eq!(s.gradient_of(y), 1.0);
    assert_eq!(s.gradient_of(x), 0.5);
    assert_eq!(s.gradient_of(z), 0.0);
}

#[test]
fn reset_then_backward_twice_agrees() {
    let mut s: Store<f32> = Store::new(0.0, 1.0);
    let x = s.create_leaf(1.5);
    let y = s.create_leaf(-0.5);
    let m = s.create_op(OpKind::Multiply, vec![x, y], -0.75);
    let e = s.create_op(OpKind::Add, vec![m, x], 0.75);
    let mut runs = Vec::new();
    for _ in 0..2 {
        s.reset_gradients();
        let steps = s.begin_backward(e);
        run_steps(&mut s, &steps);
        runs.push((steps, (0..s.len()).map(|i| s.gradient_of(i)).collect::<Vec<f32>>()));
    }
    assert_eq!(runs[0], runs[1]);
    assert_eq!(runs[0].1, vec![0.5, 1.5, 1.0, 1.0]);
}

/// Builds `relu((v1 / v2 * (v3 - v2)) ^ 10)` the way the expression builder
/// does, with subtraction and division made of primitive operations.
fn scenario(v1: f32, v2: f32, v3: f32) -> (Store<f32>, usize, usize) {
    let mut s: Store<f32> = Store::new(0.0, 1.0);
    let a = s.create_leaf(v1);
    let b = s.create_leaf(v2);
    let c = s.create_leaf(v3);
    let m1 = s.create_leaf(-1.0);
    let inv = s.create_op(OpKind::Power, vec![b, m1], v2.powf(-1.0));
    let q = s.create_op(OpKind::Multiply, vec![a, inv], v1 * v2.powf(-1.0));
    let m2 = s.create_leaf(-1.0);
    let neg = s.create_op(OpKind::Multiply, vec![m2, b], -v2);
    let diff = s.create_op(OpKind::Add, vec![c, neg], v3 + -v2);
    let prod_v = s.value_of(q) * s.value_of(diff);
    let prod = s.create_op(OpKind::Multiply, vec![q, diff], prod_v);
    let ten = s.create_leaf(10.0);
    let pw = s.create_op(OpKind::Power, vec![prod, ten], prod_v.powf(10.0));
    let out = s.create_op(OpKind::Relu, vec![pw], prod_v.powf(10.0).max(0.0));
    (s, out, c)
}

#[test]
fn end_to_end_gradient_matches_derivative() {
    let (mut s, out, v3) = scenario(1.0, 2.0, 3.0);
    assert!(s.backward_order(out).contains(&v3));
    s.reset_gradients();
    let steps = s.begin_backward(out);
    run_steps(&mut s, &steps);
    let analytic = 10.0 * 0.5f32.powi(10);
    assert!((s.gradient_of(v3) - analytic).abs() < 1e-6);
    let h = 1e-2f32;
    let (hi, o_hi, _) = scenario(1.0, 2.0, 3.0 + h);
    let (lo, o_lo, _) = scenario(1.0, 2.0, 3.0 - h);
    let fd = (hi.value_of(o_hi) - lo.value_of(o_lo)) / (2.0 * h);
    assert!((s.gradient_of(v3) - fd).abs() < 1e-4);
}

#[test]
fn divide_gradient_is_reciprocal() {
    let mut s: Store<f32> = Store::new(0.0, 1.0);
    let x = s.create_leaf(3.0);
    let y = s.create_leaf(4.0);
    let m1 = s.create_leaf(-1.0);
    let inv = s.create_op(OpKind::Power, vec![y, m1], 4.0f32.powf(-1.0));
    let q = s.create_op(OpKind::Multiply, vec![x, inv], 3.0 * 4.0f32.powf(-1.0));
    assert!((s.value_of(q) - 0.75).abs() < 1e-6);
    let steps = s.begin_backward(q);
    run_steps(&mut s, &steps);
    assert!((s.gradient_of(x) - 0.25).abs() < 1e-6);
}
