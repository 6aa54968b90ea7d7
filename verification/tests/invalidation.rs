use compgraph::{ArenaGraph, ArenaNode, BinaryOpType, Operation, UnaryOpType, UnsetInput};
use std::cell::{Cell, RefCell};

fn kernel(request: Operation) -> u32 {
    match request {
        Operation::Binary { op, lhs, rhs } => {
            let (a, b) = (f32::from_bits(lhs), f32::from_bits(rhs));
            let r = match op {
                BinaryOpType::Sum => a + b,
                BinaryOpType::Mul => a * b,
                BinaryOpType::Sub => a - b,
                BinaryOpType::Div => a / b,
                BinaryOpType::Pow => a.powf(b),
            };
            r.to_bits()
        }
        Operation::Unary { op, arg } => {
            let a = f32::from_bits(arg);
            let r = match op {
                UnaryOpType::Sin => a.sin(),
                UnaryOpType::Cos => a.cos(),
            };
            r.to_bits()
        }
    }
}

fn bits(x: f32) -> u32 {
    x.to_bits()
}

#[test]
fn compute_twice_returns_the_same_value_without_recomputing() {
    let calls = Cell::new(0u32);
    let counting = |request: Operation| {
        calls.set(calls.get() + 1);
        kernel(request)
    };
    let mut g = ArenaGraph::new(counting);
    let a = g.create_input_from("a", bits(2.5));
    let b = g.create_input_from("b", bits(4.0));
    let s = g.sum(a, b);
    let r = g.sin(s);
    let first = g.compute(r);
    assert_eq!(first, Ok(bits(f32::sin(2.5 + 4.0))));
    assert_eq!(calls.get(), 2);
    let second = g.compute(r);
    assert_eq!(second, first);
    assert_eq!(calls.get(), 2);
}

#[test]
fn set_invalidates_every_transitive_dependent() {
    let mut g = ArenaGraph::new(kernel);
    let x = g.create_input_from("x", bits(1.0));
    let y = g.create_input_from("y", bits(2.0));
    let s = g.sum(x, y);
    let c = g.cos(s);
    let d = g.div(c, y);
    assert_eq!(g.compute(d), Ok(bits(f32::cos(1.0 + 2.0) / 2.0)));
    assert!(g.get_cache_or_value(s).is_some());
    assert!(g.get_cache_or_value(c).is_some());
    assert!(g.get_cache_or_value(d).is_some());
    g.set(x, bits(5.0));
    assert_eq!(g.get_cache_or_value(s), None);
    assert_eq!(g.get_cache_or_value(c), None);
    assert_eq!(g.get_cache_or_value(d), None);
    assert_eq!(g.compute(d), Ok(bits(f32::cos(5.0 + 2.0) / 2.0)));
}

#[test]
fn set_leaves_unrelated_branch_cached_and_uncomputed() {
    let calls = Cell::new(0u32);
    let counting = |request: Operation| {
        calls.set(calls.get() + 1);
        kernel(request)
    };
    let mut g = ArenaGraph::new(counting);
    let a = g.create_input("a");
    let b = g.create_input("b");
    let c = g.create_input("c");
    let m = g.mul(b, c);
    let r = g.sum(a, m);
    g.set(a, bits(10.0));
    g.set(b, bits(50.0));
    g.set(c, bits(30.0));
    assert_eq!(g.compute(r), Ok(bits(1510.0)));
    assert_eq!(calls.get(), 2);
    g.set(a, bits(20.0));
    assert_eq!(g.get_cache_or_value(m), Some(bits(1500.0)));
    assert_eq!(g.compute(r), Ok(bits(1520.0)));
    assert_eq!(calls.get(), 3);
}

#[test]
fn set_on_a_node_that_is_no_input_changes_nothing() {
    let mut g = ArenaGraph::new(kernel);
    let a = g.create_input_from("a", bits(3.0));
    let k = g.create_constant(bits(4.0));
    let m = g.mul(a, k);
    assert_eq!(g.compute(m), Ok(bits(12.0)));
    g.set(k, bits(9.0));
    g.set(m, bits(9.0));
    g.set(77, bits(9.0));
    assert_eq!(g.get_cache_or_value(k), Some(bits(4.0)));
    assert_eq!(g.get_cache_or_value(m), Some(bits(12.0)));
    assert_eq!(g.len(), 3);
}

#[test]
fn shared_operand_is_registered_once_per_path() {
    let mut g = ArenaGraph::new(kernel);
    let a = g.create_input_from("a", bits(3.0));
    let twice = g.sum(a, a);
    let quad = g.mul(twice, twice);
    match g.get(a) {
        Some(ArenaNode::Input { deps, .. }) => {
            assert_eq!(deps, &vec![twice, twice, quad, quad, quad, quad]);
        }
        _ => panic!("input expected"),
    }
    assert_eq!(g.compute(quad), Ok(bits(36.0)));
    g.set(a, bits(1.0));
    assert_eq!(g.get_cache_or_value(twice), None);
    assert_eq!(g.compute(quad), Ok(bits(4.0)));
}

#[test]
fn pow_with_literal_registers_below_the_base_only() {
    let mut g = ArenaGraph::new(kernel);
    let a = g.create_input_from("a", bits(3.0));
    let p = g.pow(a, bits(2.0));
    assert_eq!(p, 2);
    match g.get(1) {
        Some(ArenaNode::Constant { value }) => assert_eq!(*value, bits(2.0)),
        _ => panic!("constant expected"),
    }
    match g.get(p) {
        Some(ArenaNode::BinaryOp { lhs, rhs, cache, .. }) => {
            assert_eq!((*lhs, *rhs, *cache), (a, 1, None));
        }
        _ => panic!("operator expected"),
    }
    assert_eq!(g.resolvable_dependents(a), vec![p]);
    assert_eq!(g.compute(p), Ok(bits(9.0)));
    g.set(a, bits(4.0));
    assert_eq!(g.compute(p), Ok(bits(16.0)));
}

#[test]
fn unset_input_failure_names_the_first_unset_input() {
    let mut g = ArenaGraph::new(kernel);
    let a = g.create_input("a");
    let b = g.create_input("b");
    let c = g.create_input("c");
    let m = g.mul(b, c);
    let r = g.sub(a, m);
    g.set(a, bits(1.0));
    let failure = g.compute(r);
    assert_eq!(failure, Err(UnsetInput { node: b, name: "b" }));
    g.set(b, bits(2.0));
    assert_eq!(g.compute(r), Err(UnsetInput { node: c, name: "c" }));
    assert_eq!(g.compute(r), Err(UnsetInput { node: c, name: "c" }));
    g.set(c, bits(3.0));
    assert_eq!(g.compute(r), Ok(bits(1.0 - 2.0 * 3.0)));
}

#[test]
fn unset_input_message_names_the_input() {
    let failure = UnsetInput { node: 4, name: "rate" };
    assert_eq!(failure.message(), "Input rate value not set. Aborting compute");
}

#[test]
fn division_by_zero_and_nan_propagate() {
    let mut g = ArenaGraph::new(kernel);
    let one = g.create_constant(bits(1.0));
    let zero = g.create_input_from("zero", bits(0.0));
    let inf = g.div(one, zero);
    let nan = g.sub(inf, inf);
    assert_eq!(g.compute(inf), Ok(bits(f32::INFINITY)));
    let result = g.compute(nan).unwrap();
    assert!(f32::from_bits(result).is_nan());
}

#[test]
fn constants_add_subtract_multiply_divide_bit_for_bit() {
    let (a, b) = (0.1f32, 0.7f32);
    let mut g = ArenaGraph::new(kernel);
    let ca = g.create_constant(bits(a));
    let cb = g.create_constant(bits(b));
    let sum = g.sum(ca, cb);
    let sub = g.sub(ca, cb);
    let mul = g.mul(ca, cb);
    let div = g.div(ca, cb);
    let pow = g.powf(ca, cb);
    let sin = g.sin(ca);
    let cos = g.cos(ca);
    assert_eq!(g.compute(sum), Ok((a + b).to_bits()));
    assert_eq!(g.compute(sub), Ok((a - b).to_bits()));
    assert_eq!(g.compute(mul), Ok((a * b).to_bits()));
    assert_eq!(g.compute(div), Ok((a / b).to_bits()));
    assert_eq!(g.compute(pow), Ok(a.powf(b).to_bits()));
    assert_eq!(g.compute(sin), Ok(a.sin().to_bits()));
    assert_eq!(g.compute(cos), Ok(a.cos().to_bits()));
}

#[test]
fn kernel_is_asked_once_per_missing_result_operands_first() {
    let asked: RefCell<Vec<Operation>> = RefCell::new(Vec::new());
    let recording = |request: Operation| {
        asked.borrow_mut().push(request);
        kernel(request)
    };
    let mut g = ArenaGraph::new(recording);
    let a = g.create_input_from("a", bits(10.0));
    let b = g.create_input_from("b", bits(50.0));
    let c = g.create_input_from("c", bits(30.0));
    let m = g.mul(b, c);
    let s = g.sin(m);
    let r = g.sum(a, m);
    let top = g.sub(r, s);
    assert_eq!(g.compute(top), Ok(bits((10.0 + 1500.0) - f32::sin(1500.0))));
    assert_eq!(
        *asked.borrow(),
        vec![
            Operation::Binary { op: BinaryOpType::Mul, lhs: bits(50.0), rhs: bits(30.0) },
            Operation::Binary { op: BinaryOpType::Sum, lhs: bits(10.0), rhs: bits(1500.0) },
            Operation::Unary { op: UnaryOpType::Sin, arg: bits(1500.0) },
            Operation::Binary {
                op: BinaryOpType::Sub,
                lhs: bits(1510.0),
                rhs: bits(f32::sin(1500.0))
            },
        ]
    );
    asked.borrow_mut().clear();
    assert_eq!(g.compute(top), Ok(bits(1510.0 - f32::sin(1500.0))));
    assert!(asked.borrow().is_empty());
    g.set(a, bits(20.0));
    assert_eq!(g.compute(top), Ok(bits(1520.0 - f32::sin(1500.0))));
    assert_eq!(
        *asked.borrow(),
        vec![
            Operation::Binary { op: BinaryOpType::Sum, lhs: bits(20.0), rhs: bits(1500.0) },
            Operation::Binary {
                op: BinaryOpType::Sub,
                lhs: bits(1520.0),
                rhs: bits(f32::sin(1500.0))
            },
        ]
    );
}

#[test]
fn a_failed_evaluation_asks_only_for_what_came_before_the_unset_input() {
    let asked: RefCell<Vec<Operation>> = RefCell::new(Vec::new());
    let recording = |request: Operation| {
        asked.borrow_mut().push(request);
        kernel(request)
    };
    let mut g = ArenaGraph::new(recording);
    let a = g.create_input_from("a", bits(2.0));
    let b = g.create_input("b");
    let left = g.cos(a);
    let right = g.sin(b);
    let top = g.mul(left, right);
    assert_eq!(g.compute(top), Err(UnsetInput { node: b, name: "b" }));
    assert_eq!(*asked.borrow(), vec![Operation::Unary { op: UnaryOpType::Cos, arg: bits(2.0) }]);
    assert_eq!(g.get_cache_or_value(left), Some(bits(f32::cos(2.0))));
    assert_eq!(g.get_cache_or_value(right), None);
    assert_eq!(g.get_cache_or_value(top), None);
    asked.borrow_mut().clear();
    g.set(b, bits(1.0));
    assert_eq!(g.compute(top), Ok(bits(f32::cos(2.0) * f32::sin(1.0))));
    assert_eq!(
        *asked.borrow(),
        vec![
            Operation::Unary { op: UnaryOpType::Sin, arg: bits(1.0) },
            Operation::Binary {
                op: BinaryOpType::Mul,
                lhs: bits(f32::cos(2.0)),
                rhs: bits(f32::sin(1.0))
            },
        ]
    );
}
