//! The nodes stored in the arena and their mathematical view.

use crate::ops::{BinaryOpType, UnaryOpType};
use vstd::prelude::*;

verus! {

/// The handle of a node: the index of the slot in which the arena of its
/// graph created it.
pub type CompNode = usize;

/// A node of the computation graph. Operands and dependents are handles:
/// indices into the arena that owns the node.
#[derive(Debug)]
#[allow(inconsistent_fields)]
pub enum ArenaNode {
    /// A named leaf whose value the caller sets. `deps` holds a back-link to
    /// every operator node that was built over this input, one entry per
    /// forward path from that operator down to the input.
    Input { name: &'static str, value: Option<u32>, deps: Vec<CompNode> },
    /// A leaf fixed at construction.
    Constant { value: u32 },
    /// A two-operand operator with its memoised result.
    BinaryOp { lhs: CompNode, rhs: CompNode, cache: Option<u32>, op_type: BinaryOpType },
    /// A one-operand operator with its memoised result.
    UnaryOp { arg: CompNode, cache: Option<u32>, op_type: UnaryOpType },
}

/// A list of handles as mathematical integers.
pub open spec fn handles_of(list: Seq<CompNode>) -> Seq<int> {
    list.map_values(|d: CompNode| d as int)
}

/// What a node is, with handles as mathematical integers.
#[allow(inconsistent_fields)]
pub ghost enum NodeView {
    Input { name: Seq<char>, value: Option<u32>, deps: Seq<int> },
    Constant { value: u32 },
    BinaryOp { lhs: int, rhs: int, cache: Option<u32>, op_type: BinaryOpType },
    UnaryOp { arg: int, cache: Option<u32>, op_type: UnaryOpType },
}

impl View for ArenaNode {
    type V = NodeView;

    open spec fn view(&self) -> NodeView {
        match *self {
            ArenaNode::Input { name, value, deps } => NodeView::Input {
                name: name@,
                value,
                deps: handles_of(deps@),
            },
            ArenaNode::Constant { value } => NodeView::Constant { value },
            ArenaNode::BinaryOp { lhs, rhs, cache, op_type } => NodeView::BinaryOp {
                lhs: lhs as int,
                rhs: rhs as int,
                cache,
                op_type,
            },
            ArenaNode::UnaryOp { arg, cache, op_type } => NodeView::UnaryOp {
                arg: arg as int,
                cache,
                op_type,
            },
        }
    }
}

} // verus!
