//! The textual form of an expression, derived from its structure alone.

use crate::graph::ArenaGraph;
use crate::model::{live, node_ok, Slots};
use crate::node::{ArenaNode, CompNode, NodeView};
use crate::ops::Operation;
use vstd::pervasive::unreached;
use vstd::prelude::*;
use vstd::string::*;

verus! {

/// What a formatter of literals may return: `lit(bits, text)` holds of every
/// text the formatter can give for the scalar with pattern `bits`.
pub type Literals = spec_fn(u32, String) -> bool;

/// What a formatter guarantees of its results.
pub open spec fn literals_of<L: Fn(u32) -> String>(literal: L) -> Literals {
    |bits: u32, text: String| literal.ensures((bits,), text)
}

/// `text` is what the formatter may give for the scalar with pattern `bits`.
pub open spec fn formats(lit: Literals, bits: u32, text: Seq<char>) -> bool {
    exists|t: String| t@ == text && #[trigger] lit(bits, t)
}

/// `(lhs symbol rhs)`.
pub open spec fn infix(lhs: Seq<char>, symbol: Seq<char>, rhs: Seq<char>) -> Seq<char> {
    "("@ + lhs + " "@ + symbol + " "@ + rhs + ")"@
}

/// `name(arg)`.
pub open spec fn call(name: Seq<char>, arg: Seq<char>) -> Seq<char> {
    name + "("@ + arg + ")"@
}

/// `text` is a rendering of node `n`: an input is its name, a constant is
/// its literal as the formatter gives it, a two-operand node is
/// `(lhs symbol rhs)` and a one-operand node is `name(arg)`, over renderings
/// of the operands.
pub open spec fn renders(s: Slots, lit: Literals, n: int, text: Seq<char>) -> bool
    decreases n,
{
    if 0 <= n < s.len() {
        match s[n] {
            Some(NodeView::Input { name, .. }) => text == name,
            Some(NodeView::Constant { value }) => formats(lit, value, text),
            Some(NodeView::BinaryOp { lhs, rhs, op_type, .. }) => {
                &&& 0 <= lhs < n
                &&& 0 <= rhs < n
                &&& exists|l: Seq<char>, r: Seq<char>|
                    renders(s, lit, lhs, l) && renders(s, lit, rhs, r) && text == #[trigger] infix(
                        l,
                        op_type.symbol(),
                        r,
                    )
            },
            Some(NodeView::UnaryOp { arg, op_type, .. }) => {
                &&& 0 <= arg < n
                &&& exists|a: Seq<char>|
                    renders(s, lit, arg, a) && text == #[trigger] call(op_type.name(), a)
            },
            None => false,
        }
    } else {
        false
    }
}

impl<K: Fn(Operation) -> u32> ArenaGraph<K> {
    /// Renders the expression under `node`. Constants are rendered by
    /// `literal`.
    pub fn to_display_string<L: Fn(u32) -> String>(&self, node: CompNode, literal: &L) -> (text:
        String)
        requires
            self.wf(),
            live(self@, node as int),
            forall|bits: u32| #[trigger] literal.requires((bits,)),
        ensures
            renders(self@, literals_of(*literal), node as int, text@),
        decreases node,
    {
        proof {
            assert(node_ok(self@, node as int));
        }
        match self.get(node) {
            Some(ArenaNode::Input { name, .. }) => String::from_str(name),
            Some(ArenaNode::Constant { value }) => {
                let text = literal(*value);
                assert(literals_of(*literal)(*value, text));
                text
            },
            Some(ArenaNode::BinaryOp { lhs, rhs, op_type, .. }) => {
                let left = self.to_display_string(*lhs, literal);
                let right = self.to_display_string(*rhs, literal);
                let mut text = String::from_str("(");
                text.append(left.as_str());
                text.append(" ");
                text.append(op_type.symbol_str());
                text.append(" ");
                text.append(right.as_str());
                text.append(")");
                assert(text@ == infix(left@, op_type.symbol(), right@));
                text
            },
            Some(ArenaNode::UnaryOp { arg, op_type, .. }) => {
                let inner = self.to_display_string(*arg, literal);
                let mut text = String::from_str(op_type.name_str());
                text.append("(");
                text.append(inner.as_str());
                text.append(")");
                assert(text@ == call(op_type.name(), inner@));
                text
            },
            None => unreached(),
        }
    }
}

} // verus!
