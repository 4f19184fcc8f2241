use autodiff::store::{OpKind, Store};

#[test]
fn leaves_get_increasing_ids_and_zero_gradients() {
    let mut s: Store<f32> = Store::new(0.0, 1.0);
    assert_eq!(s.len(), 0);
    let a = s.create_leaf(1.5);
    let b = s.create_leaf(-2.0);
    assert_eq!((a, b), (0, 1));
    assert_eq!(s.len(), 2);
    assert_eq!(s.value_of(a), 1.5);
    assert_eq!(s.value_of(b), -2.0);
    assert_eq!(s.gradient_of(a), 0.0);
    assert_eq!(s.gradient_of(b), 0.0);
    assert_eq!(s.kind_of(a), None);
    assert!(s.operands_of(b).is_empty());
}

#[test]
fn operation_records_kind_operands_and_value() {
    let mut s: Store<f32> = Store::new(0.0, 1.0);
    let a = s.create_leaf(2.0);
    let b = s.create_leaf(3.0);
    let p = s.create_op(OpKind::Multiply, vec![a, b], 6.0);
    let r = s.create_op(OpKind::Relu, vec![p], 6.0);
    assert_eq!(p, 2);
    assert_eq!(r, 3);
    assert_eq!(s.kind_of(p), Some(OpKind::Multiply));
    assert_eq!(s.operands_of(p), vec![a, b]);
    assert_eq!(s.kind_of(r), Some(OpKind::Relu));
    assert_eq!(s.operands_of(r), vec![p]);
    assert_eq!(s.value_of(p), 6.0);
    assert_eq!(s.gradient_of(r), 0.0);
}

#[test]
fn arity_of_each_kind() {
    assert_eq!(OpKind::Add.operand_count(), 2);
    assert_eq!(OpKind::Multiply.operand_count(), 2);
    assert_eq!(OpKind::Power.operand_count(), 2);
    assert_eq!(OpKind::Relu.operand_count(), 1);
}

#[test]
fn reset_zeroes_every_gradient_and_keeps_values() {
    let mut s: Store<f32> = Store::new(0.0, 1.0);
    let a = s.create_leaf(4.0);
    let b = s.create_leaf(5.0);
    let c = s.create_op(OpKind::Add, vec![a, b], 9.0);
    s.set_gradient(a, 7.0);
    s.set_gradient(c, -1.0);
    assert_eq!(s.gradient_of(a), 7.0);
    assert_eq!(s.gradient_of(b), 0.0);
    s.reset_gradients();
    for id in [a, b, c] {
        assert_eq!(s.gradient_of(id), 0.0);
    }
    assert_eq!(s.value_of(c), 9.0);
    assert_eq!(s.operands_of(c), vec![a, b]);
}

#[test]
fn zero_and_one_are_the_callers() {
    let mut s: Store<i64> = Store::new(100, 7);
    let a = s.create_leaf(3);
    assert_eq!(s.gradient_of(a), 100);
    s.seed_gradient(a);
    assert_eq!(s.gradient_of(a), 7);
    s.reset_gradients();
    assert_eq!(s.gradient_of(a), 100);
}

#[test]
fn every_operand_id_is_below_its_node() {
    let mut s: Store<f32> = Store::new(0.0, 1.0);
    let x = s.create_leaf(1.0);
    let y = s.create_leaf(2.0);
    let m = s.create_op(OpKind::Multiply, vec![x, y], 2.0);
    let p = s.create_op(OpKind::Power, vec![m, y], 4.0);
    let _ = s.create_op(OpKind::Add, vec![p, x], 5.0);
    for id in 0..s.len() {
        for op in s.operands_of(id) {
            assert!(op < id);
        }
    }
}
