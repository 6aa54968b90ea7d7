use compgraph::{ArenaGraph, BinaryOpType, Operation, UnaryOpType, UnsetInput};
use proptest::test_runner::{Config, TestRunner};

fn kernel(request: Operation) -> u32 {
    match request {
        Operation::Binary { op, lhs, rhs } => {
            let (a, b) = (f32::from_bits(lhs), f32::from_bits(rhs));
            let r = match op {
                BinaryOpType::Sum => a + b,
                BinaryOpType::Mul => a * b,
                BinaryOpType::Sub => a - b,
                BinaryOpType::Div => a / b,
                BinaryOpType::Pow => a.powf(b),
            };
            r.to_bits()
        }
        Operation::Unary { op, arg } => {
            let a = f32::from_bits(arg);
            let r = match op {
                UnaryOpType::Sin => a.sin(),
                UnaryOpType::Cos => a.cos(),
            };
            r.to_bits()
        }
    }
}

/// The same expressions kept as plain trees of indices, evaluated without
/// any cache.
enum Plain {
    Input(&'static str, Option<f32>),
    Constant(f32),
    Binary(BinaryOpType, usize, usize),
    Unary(UnaryOpType, usize),
}

fn fresh(nodes: &[Plain], node: usize) -> Result<u32, UnsetInput> {
    match &nodes[node] {
        Plain::Input(name, value) => match value {
            Some(v) => Ok(v.to_bits()),
            None => Err(UnsetInput { node, name }),
        },
        Plain::Constant(v) => Ok(v.to_bits()),
        Plain::Binary(op, lhs, rhs) => {
            let a = fresh(nodes, *lhs)?;
            let b = fresh(nodes, *rhs)?;
            Ok(kernel(Operation::Binary { op: *op, lhs: a, rhs: b }))
        }
        Plain::Unary(op, arg) => {
            let a = fresh(nodes, *arg)?;
            Ok(kernel(Operation::Unary { op: *op, arg: a }))
        }
    }
}

const NAMES: [&str; 4] = ["a", "b", "c", "d"];

#[test]
fn every_evaluation_agrees_with_an_evaluation_without_caches() {
    let steps = proptest::collection::vec((0u8..12, 0usize..64, 0usize..64, -100i32..100), 1..40);
    let mut runner = TestRunner::new(Config {
        cases: 500,
        failure_persistence: None,
        ..Config::default()
    });
    runner
        .run(&steps, |steps| {
            let mut g = ArenaGraph::new(kernel);
            let mut plain: Vec<Plain> = Vec::new();
            for (i, name) in NAMES.iter().enumerate() {
                let value = if i % 2 == 0 { Some(i as f32 + 0.5) } else { None };
                let handle = match value {
                    Some(v) => g.create_input_from(name, v.to_bits()),
                    None => g.create_input(name),
                };
                assert_eq!(handle, plain.len());
                plain.push(Plain::Input(name, value));
            }
            for (kind, x, y, number) in steps {
                let (x, y) = (x % plain.len(), y % plain.len());
                let value = number as f32 / 4.0;
                match kind {
                    0 => {
                        assert_eq!(g.sum(x, y), plain.len());
                        plain.push(Plain::Binary(BinaryOpType::Sum, x, y));
                    }
                    1 => {
                        assert_eq!(g.mul(x, y), plain.len());
                        plain.push(Plain::Binary(BinaryOpType::Mul, x, y));
                    }
                    2 => {
                        assert_eq!(g.sub(x, y), plain.len());
                        plain.push(Plain::Binary(BinaryOpType::Sub, x, y));
                    }
                    3 => {
                        assert_eq!(g.div(x, y), plain.len());
                        plain.push(Plain::Binary(BinaryOpType::Div, x, y));
                    }
                    4 => {
                        assert_eq!(g.sin(x), plain.len());
                        plain.push(Plain::Unary(UnaryOpType::Sin, x));
                    }
                    5 => {
                        assert_eq!(g.cos(x), plain.len());
                        plain.push(Plain::Unary(UnaryOpType::Cos, x));
                    }
                    6 => {
                        assert_eq!(g.create_constant(value.to_bits()), plain.len());
                        plain.push(Plain::Constant(value));
                    }
                    7 | 8 => {
                        let input = x % NAMES.len();
                        g.set(input, value.to_bits());
                        plain[input] = Plain::Input(NAMES[input], Some(value));
                    }
                    _ => {
                        assert_eq!(g.compute(x), fresh(&plain, x));
                    }
                }
            }
            for node in 0..plain.len() {
                if let Some(held) = g.get_cache_or_value(node) {
                    assert_eq!(Ok(held), fresh(&plain, node));
                }
                assert_eq!(g.compute(node), fresh(&plain, node));
            }
            Ok(())
        })
        .unwrap();
}
