use compgraph::{ArenaGraph, BinaryOpType, Operation, UnaryOpType};

fn kernel(request: Operation) -> u32 {
    match request {
        Operation::Binary { op, lhs, rhs } => {
            let (a, b) = (f32::from_bits(lhs), f32::from_bits(rhs));
            let r = match op {
                BinaryOpType::Sum => a + b,
                BinaryOpType::Mul => a * b,
                BinaryOpType::Sub => a - b,
                BinaryOpType::Div => a / b,
                BinaryOpType::Pow => a.powf(b),
            };
            r.to_bits()
        }
        Operation::Unary { op, arg } => {
            let a = f32::from_bits(arg);
            let r = match op {
                UnaryOpType::Sin => a.sin(),
                UnaryOpType::Cos => a.cos(),
            };
            r.to_bits()
        }
    }
}

fn bits(x: f32) -> u32 {
    x.to_bits()
}

fn literal(pattern: u32) -> String {
    format!("{}", f32::from_bits(pattern))
}

#[test]
fn input_renders_as_its_name() {
    let mut g = ArenaGraph::new(kernel);
    let a = g.create_input("alpha");
    assert_eq!(g.to_display_string(a, &literal), "alpha");
}

#[test]
fn constant_renders_as_its_literal() {
    let mut g = ArenaGraph::new(kernel);
    let k = g.create_constant(bits(2.5));
    assert_eq!(g.to_display_string(k, &literal), "2.5");
}

#[test]
fn binary_operators_render_infix_in_parentheses() {
    let mut g = ArenaGraph::new(kernel);
    let a = g.create_input("a");
    let b = g.create_input("b");
    let c = g.create_input("c");
    let m = g.mul(b, c);
    let r = g.sum(a, m);
    assert_eq!(g.to_display_string(r, &literal), "(a + (b * c))");
    let d = g.sub(a, b);
    assert_eq!(g.to_display_string(d, &literal), "(a - b)");
    let q = g.div(d, c);
    assert_eq!(g.to_display_string(q, &literal), "((a - b) / c)");
    let p = g.powf(a, b);
    assert_eq!(g.to_display_string(p, &literal), "(a ^ b)");
    let l = g.pow(a, bits(2.0));
    assert_eq!(g.to_display_string(l, &literal), "(a ^ 2)");
}

#[test]
fn unary_operators_render_as_calls() {
    let mut g = ArenaGraph::new(kernel);
    let a = g.create_input("a");
    let s = g.sin(a);
    let c = g.cos(s);
    assert_eq!(g.to_display_string(s, &literal), "sin(a)");
    assert_eq!(g.to_display_string(c, &literal), "cos(sin(a))");
}

#[test]
fn rendering_does_not_depend_on_values_or_caches() {
    let mut g = ArenaGraph::new(kernel);
    let a = g.create_input("a");
    let b = g.create_input("b");
    let r = g.sum(a, b);
    let before = g.to_display_string(r, &literal);
    g.set(a, bits(1.0));
    g.set(b, bits(2.0));
    assert_eq!(g.compute(r), Ok(bits(3.0)));
    assert_eq!(g.to_display_string(r, &literal), before);
}

#[test]
fn operator_names_and_symbols() {
    assert_eq!(BinaryOpType::Sum.to_string(), "sum");
    assert_eq!(BinaryOpType::Mul.to_string(), "mul");
    assert_eq!(BinaryOpType::Sub.to_string(), "sub");
    assert_eq!(BinaryOpType::Div.to_string(), "div");
    assert_eq!(BinaryOpType::Pow.to_string(), "pow");
    assert_eq!(UnaryOpType::Sin.to_string(), "sin");
    assert_eq!(UnaryOpType::Cos.to_string(), "cos");
    assert_eq!(BinaryOpType::Sum.symbol_str(), "+");
    assert_eq!(BinaryOpType::Mul.symbol_str(), "*");
    assert_eq!(BinaryOpType::Sub.symbol_str(), "-");
    assert_eq!(BinaryOpType::Div.symbol_str(), "/");
    assert_eq!(BinaryOpType::Pow.symbol_str(), "^");
    assert_eq!(UnaryOpType::Sin.name_str(), "sin");
    assert_eq!(UnaryOpType::Cos.name_str(), "cos");
}

#[test]
fn debug_dump_of_leaves() {
    let mut g = ArenaGraph::new(kernel);
    let a = g.create_input("a");
    let k = g.create_constant(bits(2.5));
    assert_eq!(g.to_debug_string(a, &literal), "Input { name: a, value: None, deps:  }");
    assert_eq!(g.to_debug_string(k, &literal), "Constant { value: 2.5 }");
    g.set(a, bits(10.0));
    assert_eq!(g.to_debug_string(a, &literal), "Input { name: a, value: Some(10), deps:  }");
}

#[test]
fn debug_dump_lists_the_dependents_that_still_exist() {
    let mut g = ArenaGraph::new(kernel);
    let a = g.create_input("a");
    let b = g.create_input("b");
    let c = g.create_input("c");
    let m = g.mul(b, c);
    let r = g.sum(a, m);
    let s = g.sin(b);
    assert_eq!(
        g.to_debug_string(a, &literal),
        "Input { name: a, value: None, deps: (a + (b * c)) }"
    );
    assert_eq!(
        g.to_debug_string(b, &literal),
        "Input { name: b, value: None, deps: (b * c), (a + (b * c)), sin(b) }"
    );
    assert!(g.release(r));
    assert_eq!(g.to_debug_string(a, &literal), "Input { name: a, value: None, deps:  }");
    assert_eq!(
        g.to_debug_string(b, &literal),
        "Input { name: b, value: None, deps: (b * c), sin(b) }"
    );
    assert!(g.release(s));
    assert_eq!(g.to_debug_string(b, &literal), "Input { name: b, value: None, deps: (b * c) }");
}

#[test]
fn debug_dump_of_operators_shows_operands_and_cache() {
    let mut g = ArenaGraph::new(kernel);
    let a = g.create_input_from("a", bits(1.0));
    let k = g.create_constant(bits(3.0));
    let d = g.sub(a, k);
    let c = g.cos(d);
    assert_eq!(
        g.to_debug_string(d, &literal),
        "sub { rhs: Constant { value: 3 }, \
         lhs: Input { name: a, value: Some(1), deps: (a - 3), cos((a - 3)) }, cache: None }"
    );
    assert_eq!(g.compute(d), Ok(bits(-2.0)));
    assert_eq!(
        g.to_debug_string(c, &literal),
        "cos { arg: sub { rhs: Constant { value: 3 }, \
         lhs: Input { name: a, value: Some(1), deps: (a - 3), cos((a - 3)) }, \
         cache: Some(-2) }, cache: None }"
    );
}
