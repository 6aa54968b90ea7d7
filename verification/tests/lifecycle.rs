use compgraph::{ArenaGraph, BinaryOpType, Operation, UnaryOpType};

fn kernel(request: Operation) -> u32 {
    match request {
        Operation::Binary { op, lhs, rhs } => {
            let (a, b) = (f32::from_bits(lhs), f32::from_bits(rhs));
            let r = match op {
                BinaryOpType::Sum => a + b,
                BinaryOpType::Mul => a * b,
                BinaryOpType::Sub => a - b,
                BinaryOpType::Div => a / b,
                BinaryOpType::Pow => a.powf(b),
            };
            r.to_bits()
        }
        Operation::Unary { op, arg } => {
            let a = f32::from_bits(arg);
            let r = match op {
                UnaryOpType::Sin => a.sin(),
                UnaryOpType::Cos => a.cos(),
            };
            r.to_bits()
        }
    }
}

fn bits(x: f32) -> u32 {
    x.to_bits()
}

#[test]
fn new_graph_is_empty() {
    let g = ArenaGraph::new(kernel);
    assert_eq!(g.len(), 0);
    assert!(!g.is_live(0));
    assert!(g.get(0).is_none());
    assert_eq!(g.get_cache_or_value(0), None);
}

#[test]
fn handles_are_creation_indices() {
    let mut g = ArenaGraph::new(kernel);
    assert_eq!(g.create_input("a"), 0);
    assert_eq!(g.create_input_from("b", bits(1.0)), 1);
    assert_eq!(g.create_constant(bits(2.0)), 2);
    assert_eq!(g.sum(0, 1), 3);
    assert_eq!(g.sin(3), 4);
    assert_eq!(g.pow(4, bits(2.0)), 6);
    assert_eq!(g.len(), 7);
    assert_eq!(g.get_cache_or_value(0), None);
    assert_eq!(g.get_cache_or_value(1), Some(bits(1.0)));
    assert_eq!(g.get_cache_or_value(2), Some(bits(2.0)));
    assert_eq!(g.get_cache_or_value(3), None);
}

#[test]
fn an_operand_outlives_the_node_that_uses_it() {
    let mut g = ArenaGraph::new(kernel);
    let a = g.create_input_from("a", bits(1.0));
    let b = g.create_input_from("b", bits(2.0));
    let s = g.sum(a, b);
    assert!(g.is_in_use(a));
    assert!(!g.is_in_use(s));
    assert!(!g.release(a));
    assert!(g.is_live(a));
    assert!(g.release(s));
    assert!(!g.is_live(s));
    assert!(!g.is_in_use(a));
    assert!(g.release(a));
    assert!(!g.is_live(a));
    assert!(!g.release(a));
    assert!(!g.release(99));
    assert_eq!(g.len(), 3);
}

#[test]
fn released_dependents_are_skipped_by_set() {
    let mut g = ArenaGraph::new(kernel);
    let a = g.create_input_from("a", bits(1.0));
    let b = g.create_input_from("b", bits(2.0));
    let s = g.sum(a, b);
    let m = g.mul(a, b);
    assert_eq!(g.resolvable_dependents(a), vec![s, m]);
    assert_eq!(g.compute(s), Ok(bits(3.0)));
    assert_eq!(g.compute(m), Ok(bits(2.0)));
    assert!(g.release(s));
    assert_eq!(g.resolvable_dependents(a), vec![m]);
    g.set(a, bits(5.0));
    assert!(!g.is_live(s));
    assert_eq!(g.get_cache_or_value(s), None);
    assert_eq!(g.get_cache_or_value(m), None);
    assert_eq!(g.compute(m), Ok(bits(10.0)));
    assert_eq!(g.resolvable_dependents(b), vec![m]);
    assert_eq!(g.resolvable_dependents(m), Vec::<usize>::new());
    assert_eq!(g.resolvable_dependents(42), Vec::<usize>::new());
}

#[test]
fn a_handle_is_never_reused() {
    let mut g = ArenaGraph::new(kernel);
    let a = g.create_input("a");
    let s = g.sin(a);
    assert!(g.release(s));
    let c = g.cos(a);
    assert_eq!(c, 2);
    assert!(!g.is_live(s));
    assert_eq!(g.resolvable_dependents(a), vec![c]);
}

#[test]
fn set_on_a_released_input_changes_nothing() {
    let mut g = ArenaGraph::new(kernel);
    let a = g.create_input("a");
    let b = g.create_input_from("b", bits(2.0));
    assert!(g.release(a));
    g.set(a, bits(1.0));
    assert!(!g.is_live(a));
    assert_eq!(g.get_cache_or_value(a), None);
    assert_eq!(g.get_cache_or_value(b), Some(bits(2.0)));
}
