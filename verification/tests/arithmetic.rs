use compgraph::{ArenaGraph, BinaryOpType, Operation, UnaryOpType};
use proptest::test_runner::{Config, TestRunner};

fn kernel(request: Operation) -> u32 {
    match request {
        Operation::Binary { op, lhs, rhs } => {
            let (a, b) = (f32::from_bits(lhs), f32::from_bits(rhs));
            let r = match op {
                BinaryOpType::Sum => a + b,
                BinaryOpType::Mul => a * b,
                BinaryOpType::Sub => a - b,
                BinaryOpType::Div => a / b,
                BinaryOpType::Pow => a.powf(b),
            };
            r.to_bits()
        }
        Operation::Unary { op, arg } => {
            let a = f32::from_bits(arg);
            let r = match op {
                UnaryOpType::Sin => a.sin(),
                UnaryOpType::Cos => a.cos(),
            };
            r.to_bits()
        }
    }
}

fn runner() -> TestRunner {
    TestRunner::new(Config {
        cases: 10000,
        failure_persistence: None,
        ..Config::default()
    })
}

fn compute(g: &mut ArenaGraph<fn(Operation) -> u32>, node: usize) -> f32 {
    f32::from_bits(g.compute(node).unwrap())
}

fn graph() -> ArenaGraph<fn(Operation) -> u32> {
    ArenaGraph::new(kernel as fn(Operation) -> u32)
}

fn value_generator() -> (proptest::num::f32::Any, proptest::num::f32::Any) {
    (proptest::num::f32::NORMAL, proptest::num::f32::NORMAL)
}

#[test]
fn test_set() {
    runner()
        .run(&value_generator(), |(gen_a, _)| {
            let mut g = graph();
            let a = g.create_input("a");
            g.set(a, gen_a.to_bits());
            assert_eq!(gen_a, compute(&mut g, a));
            Ok(())
        })
        .unwrap();
}

#[test]
fn test_create_set() {
    runner()
        .run(&value_generator(), |(gen_a, _)| {
            let mut g = graph();
            let a = g.create_input_from("a", gen_a.to_bits());
            assert_eq!(gen_a, compute(&mut g, a));
            Ok(())
        })
        .unwrap();
}

#[test]
fn test_sum() {
    runner()
        .run(&value_generator(), |(gen_a, gen_b)| {
            let mut g = graph();
            let a = g.create_input_from("a", gen_a.to_bits());
            let b = g.create_input_from("b", gen_b.to_bits());
            let expr = g.sum(a, b);
            assert_eq!(gen_a + gen_b, compute(&mut g, expr));
            Ok(())
        })
        .unwrap();
}

#[test]
fn test_mul() {
    runner()
        .run(&value_generator(), |(gen_a, gen_b)| {
            let mut g = graph();
            let a = g.create_input_from("a", gen_a.to_bits());
            let b = g.create_input_from("b", gen_b.to_bits());
            let expr = g.mul(a, b);
            assert_eq!(gen_a * gen_b, compute(&mut g, expr));
            Ok(())
        })
        .unwrap();
}

#[test]
fn test_sub() {
    runner()
        .run(&value_generator(), |(gen_a, gen_b)| {
            let mut g = graph();
            let a = g.create_input_from("a", gen_a.to_bits());
            let b = g.create_input_from("b", gen_b.to_bits());
            let expr = g.sub(a, b);
            assert_eq!(gen_a - gen_b, compute(&mut g, expr));
            Ok(())
        })
        .unwrap();
}

#[test]
fn test_div() {
    runner()
        .run(&value_generator(), |(gen_a, gen_b)| {
            let mut g = graph();
            let a = g.create_input_from("a", gen_a.to_bits());
            let b = g.create_input_from("b", gen_b.to_bits());
            let expr = g.div(a, b);
            assert_eq!(gen_a / gen_b, compute(&mut g, expr));
            Ok(())
        })
        .unwrap();
}

#[test]
fn test_sin() {
    runner()
        .run(&value_generator(), |(gen_a, _)| {
            let mut g = graph();
            let arg = g.create_input_from("a", gen_a.to_bits());
            let expr = g.sin(arg);
            assert_eq!(f32::sin(gen_a), compute(&mut g, expr));
            Ok(())
        })
        .unwrap();
}

#[test]
fn test_cos() {
    runner()
        .run(&value_generator(), |(gen_a, _)| {
            let mut g = graph();
            let arg = g.create_input_from("a", gen_a.to_bits());
            let expr = g.cos(arg);
            assert_eq!(f32::cos(gen_a), compute(&mut g, expr));
            Ok(())
        })
        .unwrap();
}

#[test]
fn test_pow() {
    runner()
        .run(&(-1000i32..1000, -1000i32..1000), |(gen_a, gen_b)| {
            let mut g = graph();
            let arg = g.create_input_from("a", (gen_a as f32).to_bits());
            let expr = g.pow(arg, (gen_b as f32).to_bits());
            assert_eq!(f32::powf(gen_a as f32, gen_b as f32), compute(&mut g, expr));
            Ok(())
        })
        .unwrap();
}

#[test]
fn test_powf() {
    runner()
        .run(&(-1000i32..1000, -1000i32..1000), |(gen_a, gen_b)| {
            let mut g = graph();
            let arg = g.create_input_from("a", (gen_a as f32).to_bits());
            let power = g.create_input_from("pw", (gen_b as f32).to_bits());
            let expr = g.powf(arg, power);
            assert_eq!(f32::powf(gen_a as f32, gen_b as f32), compute(&mut g, expr));
            Ok(())
        })
        .unwrap();
}
