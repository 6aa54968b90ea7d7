//! Operator tags and the requests handed to the arithmetic kernel.

use vstd::prelude::*;
use vstd::string::*;

verus! {

/// The two-operand operators.
#[derive(Debug, Clone, Copy, PartialEq, Eq)]
pub enum BinaryOpType {
    Sum,
    Mul,
    Sub,
    Div,
    Pow,
}

/// The one-operand operators.
#[derive(Debug, Clone, Copy, PartialEq, Eq)]
pub enum UnaryOpType {
    Sin,
    Cos,
}

/// One application of an operator to scalar bit patterns, as handed to the
/// arithmetic kernel of a graph.
#[derive(Debug, Clone, Copy, PartialEq, Eq)]
#[allow(inconsistent_fields)]
pub enum Operation {
    Binary { op: BinaryOpType, lhs: u32, rhs: u32 },
    Unary { op: UnaryOpType, arg: u32 },
}

/// One request that a graph made to its kernel, with the node whose result
/// the request works out.
pub ghost struct Applied {
    pub node: int,
    pub request: Operation,
}

impl BinaryOpType {
    /// The operator's lower-case name.
    pub open spec fn name(self) -> Seq<char> {
        match self {
            BinaryOpType::Sum => "sum"@,
            BinaryOpType::Mul => "mul"@,
            BinaryOpType::Sub => "sub"@,
            BinaryOpType::Div => "div"@,
            BinaryOpType::Pow => "pow"@,
        }
    }

    /// The infix symbol used when an expression is rendered.
    pub open spec fn symbol(self) -> Seq<char> {
        match self {
            BinaryOpType::Sum => "+"@,
            BinaryOpType::Mul => "*"@,
            BinaryOpType::Sub => "-"@,
            BinaryOpType::Div => "/"@,
            BinaryOpType::Pow => "^"@,
        }
    }

    /// Returns the operator's name as an owned string.
    pub fn to_string(&self) -> (text: String)
        ensures
            text@ == self.name(),
    {
        match self {
            BinaryOpType::Sum => String::from_str("sum"),
            BinaryOpType::Mul => String::from_str("mul"),
            BinaryOpType::Sub => String::from_str("sub"),
            BinaryOpType::Div => String::from_str("div"),
            BinaryOpType::Pow => String::from_str("pow"),
        }
    }

    /// Returns the operator's infix symbol.
    pub fn symbol_str(&self) -> (text: &'static str)
        ensures
            text@ == self.symbol(),
    {
        match self {
            BinaryOpType::Sum => "+",
            BinaryOpType::Mul => "*",
            BinaryOpType::Sub => "-",
            BinaryOpType::Div => "/",
            BinaryOpType::Pow => "^",
        }
    }
}

impl UnaryOpType {
    /// The operator's lower-case name, which is also its rendered function name.
    pub open spec fn name(self) -> Seq<char> {
        match self {
            UnaryOpType::Sin => "sin"@,
            UnaryOpType::Cos => "cos"@,
        }
    }

    /// Returns the operator's name as an owned string.
    pub fn to_string(&self) -> (text: String)
        ensures
            text@ == self.name(),
    {
        match self {
            UnaryOpType::Sin => String::from_str("sin"),
            UnaryOpType::Cos => String::from_str("cos"),
        }
    }

    /// Returns the operator's name.
    pub fn name_str(&self) -> (text: &'static str)
        ensures
            text@ == self.name(),
    {
        match self {
            UnaryOpType::Sin => "sin",
            UnaryOpType::Cos => "cos",
        }
    }
}

} // verus!
