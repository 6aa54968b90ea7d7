use compgraph::{ArenaGraph, BinaryOpType, Operation, UnaryOpType, UnsetInput};

fn kernel(request: Operation) -> u32 {
    match request {
        Operation::Binary { op, lhs, rhs } => {
            let (a, b) = (f32::from_bits(lhs), f32::from_bits(rhs));
            let r = match op {
                BinaryOpType::Sum => a + b,
                BinaryOpType::Mul => a * b,
                BinaryOpType::Sub => a - b,
                BinaryOpType::Div => a / b,
                BinaryOpType::Pow => a.powf(b),
            };
            r.to_bits()
        }
        Operation::Unary { op, arg } => {
            let a = f32::from_bits(arg);
            let r = match op {
                UnaryOpType::Sin => a.sin(),
                UnaryOpType::Cos => a.cos(),
            };
            r.to_bits()
        }
    }
}

fn bits(x: f32) -> u32 {
    x.to_bits()
}

#[test]
fn sum_of_product_recomputes_only_the_changed_path() {
    let mut g = ArenaGraph::new(kernel);
    let a = g.create_input("a");
    let b = g.create_input("b");
    let c = g.create_input("c");
    let m = g.mul(b, c);
    let r = g.sum(a, m);
    g.set(a, bits(10.0));
    g.set(b, bits(50.0));
    g.set(c, bits(30.0));
    assert_eq!(g.compute(r), Ok(bits(1510.0)));
    assert_eq!(g.get_cache_or_value(m), Some(bits(1500.0)));
    g.set(a, bits(20.0));
    assert_eq!(g.get_cache_or_value(m), Some(bits(1500.0)));
    assert_eq!(g.get_cache_or_value(r), None);
    assert_eq!(g.compute(r), Ok(bits(1520.0)));
}

#[test]
fn pow_of_negative_inputs_matches_native_powf() {
    let mut g = ArenaGraph::new(kernel);
    let a = g.create_input_from("a", bits(-8.0));
    let pw = g.create_input_from("pw", bits(-2.0));
    let r = g.powf(a, pw);
    assert_eq!(g.compute(r), Ok(f32::powf(-8.0, -2.0).to_bits()));
}

#[test]
fn unset_input_is_named() {
    let mut g = ArenaGraph::new(kernel);
    let a = g.create_input("a");
    let b = g.create_input("b");
    let r = g.sum(a, b);
    g.set(a, bits(1.0));
    assert_eq!(g.compute(r), Err(UnsetInput { node: b, name: "b" }));
}
