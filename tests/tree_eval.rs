use calculator_model::tree::{Tree, TreeError};
use calculator_model::value::{EvalError, Operator, Value};

fn arith(op: Operator, a: f64, b: f64) -> f64 {
    match op {
        Operator::Plus => a + b,
        Operator::Minus => a - b,
        Operator::Mult => a * b,
        Operator::Div => a / b,
    }
}

fn num(x: f64) -> Value<f64> {
    Value::new_f64(x)
}

fn op(o: Operator) -> Value<f64> {
    Value::new_op(o)
}

fn all_three(t: &mut Tree<Value<f64>>) -> [Result<f64, EvalError>; 3] {
    let a = t.rec_evaluate(&arith);
    let b = t.evaluate_it1(&arith);
    let c = t.evaluate_it2(&arith);
    [a, b, c]
}

fn binary(o: Operator, l: f64, r: f64) -> Tree<Value<f64>> {
    let mut t = Tree::new();
    t.set_current(op(o));
    t.set_child_left(num(l)).unwrap();
    t.set_child_right(num(r)).unwrap();
    t
}

#[test]
fn single_number_all_evaluators() {
    let mut t = Tree::new();
    t.set_current(num(3.5));
    for r in all_three(&mut t) {
        assert_eq!(r, Ok(3.5));
    }
}

#[test]
fn mul_of_add_all_evaluators() {
    let mut t = Tree::new();
    t.set_current(op(Operator::Mult));
    t.set_child_right(num(4.0)).unwrap();
    t.set_child_left(op(Operator::Plus)).unwrap();
    t.go_left().unwrap();
    t.set_child_left(num(2.0)).unwrap();
    t.set_child_right(num(3.0)).unwrap();
    for r in all_three(&mut t) {
        assert_eq!(r, Ok(20.0));
    }
}

#[test]
fn division_by_zero_follows_ieee() {
    let mut t = binary(Operator::Div, 5.0, 0.0);
    for r in all_three(&mut t) {
        assert_eq!(r, Ok(f64::INFINITY));
    }
    let mut t = binary(Operator::Div, -5.0, 0.0);
    for r in all_three(&mut t) {
        assert_eq!(r, Ok(f64::NEG_INFINITY));
    }
    let mut t = binary(Operator::Div, 0.0, 0.0);
    for r in all_three(&mut t) {
        assert!(r.unwrap().is_nan());
    }
}

#[test]
fn each_operator_on_two_numbers() {
    let cases = [
        (Operator::Plus, 7.0),
        (Operator::Minus, 3.0),
        (Operator::Mult, 10.0),
        (Operator::Div, 2.5),
    ];
    for (o, want) in cases {
        let mut t = binary(o, 5.0, 2.0);
        for r in all_three(&mut t) {
            assert_eq!(r, Ok(want));
        }
    }
}

#[test]
fn navigation_without_link_is_dead_end() {
    let mut t: Tree<Value<f64>> = Tree::new();
    t.set_current(num(1.0));
    assert_eq!(t.go_left(), Err(TreeError::DeadEnd));
    assert_eq!(t.go_right(), Err(TreeError::DeadEnd));
    assert_eq!(t.go_up(), Err(TreeError::DeadEnd));
    assert_eq!(t.current(), Some(0));
}

#[test]
fn operations_on_empty_tree_are_op_on_none() {
    let mut t: Tree<Value<f64>> = Tree::new();
    t.select_root();
    assert_eq!(t.current(), None);
    assert_eq!(t.go_left(), Err(TreeError::OpOnNone));
    assert_eq!(t.go_right(), Err(TreeError::OpOnNone));
    assert_eq!(t.go_up(), Err(TreeError::OpOnNone));
    assert_eq!(t.set_child_left(num(1.0)), Err(TreeError::OpOnNone));
    assert_eq!(t.set_child_right(num(1.0)), Err(TreeError::OpOnNone));
    assert_eq!(t.push_left(num(1.0)), Err(TreeError::OpOnNone));
    assert_eq!(t.push_right(num(1.0)), Err(TreeError::OpOnNone));
    assert_eq!(t.get_current(), Err(TreeError::OpOnNone));
    assert_eq!(t.get_left(), Err(TreeError::OpOnNone));
    assert_eq!(t.get_right(), Err(TreeError::OpOnNone));
    assert_eq!(t.len(), 0);
    for r in all_three(&mut t) {
        assert_eq!(r, Err(EvalError::BadTree));
    }
}

#[test]
fn push_left_splices_above_non_root() {
    let mut t = Tree::new();
    t.set_current(op(Operator::Plus));
    t.set_child_left(num(1.0)).unwrap();
    t.set_child_right(num(2.0)).unwrap();
    t.go_right().unwrap();
    t.push_left(op(Operator::Mult)).unwrap();
    assert_eq!(t.get_current(), Ok(&Some(num(2.0))));
    t.go_up().unwrap();
    assert_eq!(t.get_current(), Ok(&Some(op(Operator::Mult))));
    assert_eq!(t.get_left(), Ok(&Some(num(2.0))));
    t.go_up().unwrap();
    assert_eq!(t.get_current(), Ok(&Some(op(Operator::Plus))));
    t.go_right().unwrap();
    assert_eq!(t.get_current(), Ok(&Some(op(Operator::Mult))));
    t.go_left().unwrap();
    assert_eq!(t.get_current(), Ok(&Some(num(2.0))));
}

#[test]
fn push_right_on_root_moves_head() {
    let mut t = Tree::new();
    t.set_current(num(6.0));
    t.push_right(op(Operator::Div)).unwrap();
    assert_eq!(t.head(), Some(1));
    t.go_up().unwrap();
    assert_eq!(t.go_up(), Err(TreeError::DeadEnd));
    t.set_child_left(num(12.0)).unwrap();
    t.select_root();
    assert_eq!(t.get_current(), Ok(&Some(op(Operator::Div))));
    assert_eq!(t.get_right(), Ok(&Some(num(6.0))));
    for r in all_three(&mut t) {
        assert_eq!(r, Ok(2.0));
    }
}

#[test]
fn set_child_overwrites_existing() {
    let mut t = binary(Operator::Minus, 9.0, 4.0);
    t.set_child_left(num(10.0)).unwrap();
    assert_eq!(t.len(), 3);
    assert_eq!(t.get_left(), Ok(&Some(num(10.0))));
    t.set_current(op(Operator::Plus));
    assert_eq!(t.len(), 3);
    for r in all_three(&mut t) {
        assert_eq!(r, Ok(14.0));
    }
}

#[test]
fn recursive_missing_child_is_bad_tree() {
    let mut t = Tree::new();
    t.set_current(op(Operator::Plus));
    t.set_child_left(num(1.0)).unwrap();
    assert_eq!(t.rec_evaluate(&arith), Err(EvalError::BadTree));
    assert_eq!(t.evaluate_it1(&arith), Err(EvalError::BadTree));
    assert_eq!(t.evaluate_it2(&arith), Err(EvalError::BadTree));
}

#[test]
fn deep_right_chain_agrees() {
    let mut t = Tree::new();
    t.set_current(op(Operator::Mult));
    t.set_child_right(op(Operator::Mult)).unwrap();
    t.set_child_left(num(2.0)).unwrap();
    for _ in 0..5 {
        t.go_right().unwrap();
        t.set_child_left(num(2.0)).unwrap();
        t.set_child_right(op(Operator::Mult)).unwrap();
    }
    t.set_child_right(num(2.0)).unwrap();
    for r in all_three(&mut t) {
        assert_eq!(r, Ok(128.0));
    }
}

#[test]
fn operators_on_both_sides_agree() {
    // (2 * 3) - ((10 - 4) / (1 + 2)) = 4
    let mut t = Tree::new();
    t.set_current(op(Operator::Minus));
    t.set_child_left(op(Operator::Mult)).unwrap();
    t.set_child_right(op(Operator::Div)).unwrap();
    t.go_left().unwrap();
    t.set_child_left(num(2.0)).unwrap();
    t.set_child_right(num(3.0)).unwrap();
    t.go_up().unwrap();
    t.go_right().unwrap();
    t.set_child_left(op(Operator::Minus)).unwrap();
    t.set_child_right(op(Operator::Plus)).unwrap();
    t.go_left().unwrap();
    t.set_child_left(num(10.0)).unwrap();
    t.set_child_right(num(4.0)).unwrap();
    t.go_up().unwrap();
    t.go_right().unwrap();
    t.set_child_left(num(1.0)).unwrap();
    t.set_child_right(num(2.0)).unwrap();
    for r in all_three(&mut t) {
        assert_eq!(r, Ok(4.0));
    }
}

#[test]
fn operator_leaf_is_bad_tree() {
    let mut t: Tree<Value<f64>> = Tree::new();
    assert_eq!(t.rec_evaluate(&arith), Err(EvalError::BadTree));
    t.set_current(op(Operator::Plus));
    t.set_child_left(num(1.0)).unwrap();
    t.set_child_right(op(Operator::Minus)).unwrap();
    for r in all_three(&mut t) {
        assert_eq!(r, Err(EvalError::BadTree));
    }
}

#[test]
fn error_names_and_symbols() {
    assert_eq!(TreeError::DeadEnd.to_string(), "DeadEnd");
    assert_eq!(TreeError::OpOnNone.to_string(), "OpOnNone");
    assert_eq!(EvalError::BadTree.to_string(), "BadTree");
    assert_eq!(EvalError::UnexpectedOp.to_string(), "UnexpectedOp");
    assert_eq!(Operator::Plus.symbol(), '+');
    assert_eq!(Operator::Minus.symbol(), '-');
    assert_eq!(Operator::Mult.symbol(), '*');
    assert_eq!(Operator::Div.symbol(), '/');
}

#[test]
fn dump_visits_right_then_self_then_left() {
    let mut t = binary(Operator::Plus, 1.0, 2.0);
    t.go_left().unwrap();
    t.set_child_right(num(7.0)).unwrap();
    assert_eq!(t.display_tree(), vec![(1, 2), (0, 0), (2, 3), (1, 1)]);
    let e: Tree<Value<f64>> = Tree::new();
    assert_eq!(e.display_tree(), Vec::<(usize, usize)>::new());
}

#[test]
fn root_operator_missing_left_is_bad_tree() {
    let mut t = Tree::new();
    t.set_current(op(Operator::Minus));
    t.set_child_right(num(3.0)).unwrap();
    for r in all_three(&mut t) {
        assert_eq!(r, Err(EvalError::BadTree));
    }
}

#[test]
fn number_with_child_is_rejected_by_pre_order_walk() {
    let mut t = Tree::new();
    t.set_current(num(4.0));
    t.set_child_right(num(9.0)).unwrap();
    assert_eq!(t.evaluate_it1(&arith), Err(EvalError::BadTree));
    assert_eq!(t.rec_evaluate(&arith), Ok(4.0));
    assert_eq!(t.evaluate_it2(&arith), Ok(4.0));
}

#[test]
fn evaluation_ignores_cursor_position() {
    let mut t = binary(Operator::Mult, 6.0, 7.0);
    t.go_right().unwrap();
    assert_eq!(t.evaluate_it1(&arith), Ok(42.0));
    t.select_root();
    t.go_left().unwrap();
    assert_eq!(t.evaluate_it2(&arith), Ok(42.0));
    t.select_root();
    assert_eq!(t.evaluate_it1(&arith), Ok(42.0));
}

#[test]
fn deep_operator_missing_child_is_bad_tree() {
    let mut t = binary(Operator::Plus, 1.0, 2.0);
    t.go_left().unwrap();
    t.set_current(op(Operator::Div));
    t.set_child_left(num(8.0)).unwrap();
    for r in all_three(&mut t) {
        assert_eq!(r, Err(EvalError::BadTree));
    }
}
