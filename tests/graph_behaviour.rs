use cgl::{Builder, ConstraintError, GraphError};

fn isqrt(v: u32) -> u32 {
    let mut r: u32 = 0;
    while ((r + 1) as u64) * ((r + 1) as u64) <= v as u64 {
        r += 1;
    }
    r
}

#[test]
fn polynomial_value_is_computed() {
    let mut builder: Builder<fn(&[u32]) -> u32> = Builder::new();
    let x = builder.init();
    let x2 = builder.mul(&x, &x);
    let s = builder.add(&x2, &x);
    let five = builder.constant(5);
    let y = builder.add(&s, &five);
    builder.fill_nodes(vec![Some(3)]);
    assert_eq!(builder.get_value(x2), Some(9));
    assert_eq!(builder.get_value(s), Some(12));
    assert_eq!(builder.get_value(y), Some(17));
}

#[test]
fn division_hint_values() {
    let mut builder = Builder::new();
    let a = builder.init();
    let one = builder.constant(1);
    let b = builder.add(&a, &one);
    let c = builder.hint(|v: &[u32]| v[0] / 8, vec![b]);
    let eight = builder.constant(8);
    let e = builder.mul(&c, &eight);
    builder.assert_equal(b, e);
    builder.fill_nodes(vec![Some(7)]);
    assert_eq!(builder.get_value(b), Some(8));
    assert_eq!(builder.get_value(c), Some(1));
    assert_eq!(builder.get_value(e), Some(8));
    assert_eq!(builder.verify_constraints(), Ok(()));
}

#[test]
fn square_root_hint_values() {
    let mut builder = Builder::new();
    let x = builder.init();
    let seven = builder.constant(7);
    let s = builder.add(&x, &seven);
    let r = builder.hint(|v: &[u32]| isqrt(v[0]), vec![s]);
    let q = builder.mul(&r, &r);
    builder.assert_equal(q, s);
    builder.fill_nodes(vec![Some(9)]);
    assert_eq!(builder.get_value(s), Some(16));
    assert_eq!(builder.get_value(r), Some(4));
    assert_eq!(builder.get_value(q), Some(16));
    assert!(builder.check_constraints());
}

#[test]
fn non_perfect_square_reports_no_failure() {
    let mut builder = Builder::new();
    let x = builder.constant(10);
    let r = builder.hint(|v: &[u32]| isqrt(v[0]), vec![x]);
    builder.fill_nodes(vec![None]);
    assert_eq!(builder.get_value(r), Some(3));
    assert!(builder.check_constraints());
    assert_eq!(builder.verify_constraints(), Ok(()));
}

#[test]
fn unsupplied_input_reports_unresolved_node() {
    let mut builder: Builder<fn(&[u32]) -> u32> = Builder::new();
    let x = builder.init();
    let one = builder.constant(1);
    let y = builder.add(&x, &one);
    builder.assert_equal(y, one);
    builder.fill_nodes(vec![None, None, None]);
    assert_eq!(builder.get_value(y), None);
    assert!(!builder.check_constraints());
    assert_eq!(
        builder.verify_constraints(),
        Err(ConstraintError::UnresolvedNode { constraint: 0, node: y })
    );
}

#[test]
fn unresolved_second_side_is_named() {
    let mut builder: Builder<fn(&[u32]) -> u32> = Builder::new();
    let one = builder.constant(1);
    let x = builder.init();
    builder.assert_equal(one, one);
    builder.assert_equal(one, x);
    builder.fill_nodes(vec![]);
    assert_eq!(
        builder.verify_constraints(),
        Err(ConstraintError::UnresolvedNode { constraint: 1, node: x })
    );
}

#[test]
fn first_failing_constraint_is_reported() {
    let mut builder: Builder<fn(&[u32]) -> u32> = Builder::new();
    let two = builder.constant(2);
    let three = builder.constant(3);
    let x = builder.init();
    builder.assert_equal(two, two);
    builder.assert_equal(two, three);
    builder.assert_equal(x, two);
    builder.fill_nodes(vec![None, None, None]);
    assert_eq!(builder.verify_constraints(), Err(ConstraintError::Mismatch { constraint: 1 }));
    assert!(!builder.check_constraints());
}

#[test]
fn empty_graph_has_no_failing_constraint() {
    let mut builder: Builder<fn(&[u32]) -> u32> = Builder::new();
    builder.fill_nodes(vec![]);
    assert!(builder.check_constraints());
}

#[test]
fn addition_and_multiplication_wrap() {
    let mut builder: Builder<fn(&[u32]) -> u32> = Builder::new();
    let big = builder.constant(u32::MAX);
    let two = builder.constant(2);
    let sum = builder.add(&big, &two);
    let product = builder.mul(&big, &two);
    let x = builder.init();
    let square = builder.mul(&x, &x);
    builder.fill_nodes(vec![None, None, None, None, Some(65536)]);
    assert_eq!(builder.get_value(sum), Some(1));
    assert_eq!(builder.get_value(product), Some(u32::MAX - 1));
    assert_eq!(builder.get_value(square), Some(0));
}

#[test]
fn fill_ignores_values_for_non_input_nodes() {
    let mut builder: Builder<fn(&[u32]) -> u32> = Builder::new();
    let five = builder.constant(5);
    let x = builder.init();
    let sum = builder.add(&five, &x);
    builder.fill_nodes(vec![Some(100), Some(1), Some(100), Some(7)]);
    assert_eq!(builder.get_value(five), Some(5));
    assert_eq!(builder.get_value(x), Some(1));
    assert_eq!(builder.get_value(sum), Some(6));
}

#[test]
fn filling_twice_keeps_values() {
    let mut builder = Builder::new();
    let a = builder.init();
    let b = builder.init();
    let p = builder.mul(&a, &b);
    let h = builder.hint(|v: &[u32]| v[0] + v[1] + v[2], vec![a, b, p]);
    builder.fill_nodes(vec![Some(3), Some(4)]);
    let first: Vec<Option<u32>> = (0..4).map(|i| builder.get_value(i)).collect();
    builder.fill_nodes(vec![Some(3), Some(4)]);
    let second: Vec<Option<u32>> = (0..4).map(|i| builder.get_value(i)).collect();
    assert_eq!(first, vec![Some(3), Some(4), Some(12), Some(19)]);
    assert_eq!(first, second);
    assert_eq!(builder.get_value(h), Some(19));
}

#[test]
fn refilling_resolves_what_was_missing() {
    let mut builder: Builder<fn(&[u32]) -> u32> = Builder::new();
    let a = builder.init();
    let b = builder.init();
    let s = builder.add(&a, &b);
    builder.fill_nodes(vec![Some(2)]);
    assert_eq!(builder.get_value(s), None);
    builder.fill_nodes(vec![None, Some(5)]);
    assert_eq!(builder.get_value(s), Some(7));
}

#[test]
fn same_inputs_give_same_check() {
    let build = || {
        let mut builder = Builder::new();
        let a = builder.init();
        let one = builder.constant(1);
        let b = builder.add(&a, &one);
        let c = builder.hint(|v: &[u32]| v[0] / 8, vec![b]);
        let eight = builder.constant(8);
        let e = builder.mul(&c, &eight);
        builder.assert_equal(b, e);
        builder
    };
    let mut g1 = build();
    let mut g2 = build();
    g1.fill_nodes(vec![Some(8)]);
    g2.fill_nodes(vec![Some(8)]);
    assert_eq!(g1.check_constraints(), g2.check_constraints());
    assert!(!g1.check_constraints());
    assert_eq!(g1.verify_constraints(), Err(ConstraintError::Mismatch { constraint: 0 }));
}

#[test]
fn hint_sees_dependencies_in_order() {
    let mut builder: Builder<fn(&[u32]) -> u32> = Builder::new();
    let a = builder.constant(20);
    let b = builder.constant(6);
    let d = builder.hint(|v: &[u32]| v[0] - v[1], vec![a, b]);
    let e = builder.hint(|v: &[u32]| v[1] - v[0], vec![b, d]);
    let none = builder.hint(|v: &[u32]| v.len() as u32 + 40, vec![]);
    builder.fill_nodes(vec![]);
    assert_eq!(builder.get_value(d), Some(14));
    assert_eq!(builder.get_value(e), Some(8));
    assert_eq!(builder.get_value(none), Some(40));
}

#[test]
fn invalid_references_are_reported() {
    let mut builder: Builder<fn(&[u32]) -> u32> = Builder::new();
    let x = builder.init();
    assert_eq!(builder.try_add(&x, &5), Err(GraphError::InvalidReference(5)));
    assert_eq!(builder.try_mul(&7, &9), Err(GraphError::InvalidReference(7)));
    assert_eq!(builder.try_mul(&x, &x), Ok(1));
    assert_eq!(builder.try_add(&x, &1), Ok(2));
    builder.fill_nodes(vec![Some(6)]);
    assert_eq!(builder.get_value(1), Some(36));
    assert_eq!(builder.get_value(2), Some(42));
}

#[test]
fn node_new_sets_fields() {
    let c = cgl::Node::new(Some(4), false, vec![]);
    assert_eq!(c.value, Some(4));
    assert!(c.kind == cgl::NodeKind::Constant(4));
    let i = cgl::Node::new(None, true, vec![0, 1]);
    assert_eq!(i.parents, vec![0, 1]);
    assert!(i.is_hint);
    assert!(i.kind == cgl::NodeKind::Input);
}
