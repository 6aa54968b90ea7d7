//! The builders that grow a graph, and the release of a node.

use crate::graph::ArenaGraph;
use crate::model::{built_binary, built_unary, in_use, linked, live, node_ok, structured};
use crate::node::{ArenaNode, CompNode, NodeView};
use crate::ops::{BinaryOpType, Operation, UnaryOpType};
use crate::preserve::{
    lemma_binary_keeps_invariant, lemma_leaf_keeps_invariant, lemma_linked_at_input,
    lemma_linked_binary, lemma_linked_nowhere, lemma_linked_structured, lemma_linked_unary,
    lemma_pushed_operator_structured, lemma_release_keeps_invariant,
    lemma_unary_keeps_invariant,
};
use vstd::prelude::*;

verus! {

impl<K: Fn(Operation) -> u32> ArenaGraph<K> {
    /// Appends a leaf and returns its handle.
    fn push_leaf(&mut self, leaf: ArenaNode) -> (handle: CompNode)
        requires
            old(self).wf(),
            leaf is Constant || (leaf matches ArenaNode::Input { deps, .. } && deps@.len() == 0),
        ensures
            final(self).wf(),
            final(self).same_kernel(*old(self)),
            handle == old(self)@.len(),
            final(self)@ == old(self)@.push(Some(leaf@)),
    {
        proof {
            lemma_leaf_keeps_invariant(self@, self.relation(), leaf@);
        }
        self.push_slot(leaf)
    }

    /// Creates an input without a value and without dependents.
    pub fn create_input(&mut self, name: &'static str) -> (handle: CompNode)
        requires
            old(self).wf(),
        ensures
            final(self).wf(),
            final(self).same_kernel(*old(self)),
            handle == old(self)@.len(),
            final(self)@ == old(self)@.push(
                Some(NodeView::Input { name: name@, value: None, deps: Seq::empty() }),
            ),
    {
        let leaf = ArenaNode::Input { name, value: None, deps: Vec::new() };
        assert(leaf@ == NodeView::Input { name: name@, value: None, deps: Seq::empty() }) by {
            assert(leaf@->deps =~= Seq::<int>::empty());
        }
        self.push_leaf(leaf)
    }

    /// Creates an input that already holds `value`.
    pub fn create_input_from(&mut self, name: &'static str, value: u32) -> (handle: CompNode)
        requires
            old(self).wf(),
        ensures
            final(self).wf(),
            final(self).same_kernel(*old(self)),
            handle == old(self)@.len(),
            final(self)@ == old(self)@.push(
                Some(NodeView::Input { name: name@, value: Some(value), deps: Seq::empty() }),
            ),
    {
        let leaf = ArenaNode::Input { name, value: Some(value), deps: Vec::new() };
        assert(leaf@ == NodeView::Input { name: name@, value: Some(value), deps: Seq::empty() })
            by {
            assert(leaf@->deps =~= Seq::<int>::empty());
        }
        self.push_leaf(leaf)
    }

    /// Creates a constant.
    pub fn create_constant(&mut self, value: u32) -> (handle: CompNode)
        requires
            old(self).wf(),
        ensures
            final(self).wf(),
            final(self).same_kernel(*old(self)),
            handle == old(self)@.len(),
            final(self)@ == old(self)@.push(Some(NodeView::Constant { value })),
    {
        self.push_leaf(ArenaNode::Constant { value })
    }

    /// Registers `dep` as a dependent of every input under `from`, walking
    /// down through the operands of intermediate operators.
    fn add_dependency_link(&mut self, from: CompNode, dep: CompNode)
        requires
            structured(old(self)@),
            from < dep < old(self)@.len(),
        ensures
            final(self).same_kernel(*old(self)),
            final(self)@ == linked(old(self)@, from as int, dep as int),
        decreases from,
    {
        proof {
            assert(node_ok(self@, from as int));
        }
        match self.get(from) {
            Some(ArenaNode::Input { .. }) => {
                proof {
                    lemma_linked_at_input(self@, from as int, dep as int);
                }
                self.push_dependent(from, dep);
            },
            Some(ArenaNode::BinaryOp { lhs, rhs, .. }) => {
                let (lhs, rhs) = (*lhs, *rhs);
                proof {
                    lemma_linked_binary(self@, from as int, dep as int);
                    lemma_linked_structured(self@, lhs as int, dep as int);
                }
                self.add_dependency_link(lhs, dep);
                self.add_dependency_link(rhs, dep);
            },
            Some(ArenaNode::UnaryOp { arg, .. }) => {
                let arg = *arg;
                proof {
                    lemma_linked_unary(self@, from as int, dep as int);
                }
                self.add_dependency_link(arg, dep);
            },
            _ => {
                proof {
                    lemma_linked_nowhere(self@, from as int, dep as int);
                }
            },
        }
    }

    /// Appends a two-operand node and registers it below both operands.
    fn binary(&mut self, op_type: BinaryOpType, lhs: CompNode, rhs: CompNode) -> (handle: CompNode)
        requires
            old(self).wf(),
            live(old(self)@, lhs as int),
            live(old(self)@, rhs as int),
        ensures
            final(self).wf(),
            final(self).same_kernel(*old(self)),
            built_binary(
                old(self)@,
                final(self)@,
                handle as int,
                op_type,
                lhs as int,
                rhs as int,
            ),
    {
        let handle = self.push_slot(ArenaNode::BinaryOp { lhs, rhs, cache: None, op_type });
        proof {
            let pushed = old(self)@.push(
                Some(
                    NodeView::BinaryOp { lhs: lhs as int, rhs: rhs as int, cache: None, op_type },
                ),
            );
            assert(self@ =~= pushed);
            lemma_pushed_operator_structured(old(self)@, pushed);
            lemma_linked_structured(pushed, lhs as int, handle as int);
            lemma_binary_keeps_invariant(
                old(self)@,
                self.relation(),
                op_type,
                lhs as int,
                rhs as int,
            );
        }
        self.add_dependency_link(lhs, handle);
        self.add_dependency_link(rhs, handle);
        handle
    }

    /// Appends a one-operand node and registers it below its operand.
    fn unary(&mut self, op_type: UnaryOpType, arg: CompNode) -> (handle: CompNode)
        requires
            old(self).wf(),
            live(old(self)@, arg as int),
        ensures
            final(self).wf(),
            final(self).same_kernel(*old(self)),
            built_unary(old(self)@, final(self)@, handle as int, op_type, arg as int),
    {
        let handle = self.push_slot(ArenaNode::UnaryOp { arg, cache: None, op_type });
        proof {
            let pushed = old(self)@.push(
                Some(NodeView::UnaryOp { arg: arg as int, cache: None, op_type }),
            );
            assert(self@ =~= pushed);
            lemma_pushed_operator_structured(old(self)@, pushed);
            lemma_unary_keeps_invariant(old(self)@, self.relation(), op_type, arg as int);
        }
        self.add_dependency_link(arg, handle);
        handle
    }

    /// Builds `lhs + rhs`.
    pub fn sum(&mut self, lhs: CompNode, rhs: CompNode) -> (handle: CompNode)
        requires
            old(self).wf(),
            live(old(self)@, lhs as int),
            live(old(self)@, rhs as int),
        ensures
            final(self).wf(),
            final(self).same_kernel(*old(self)),
            built_binary(
                old(self)@,
                final(self)@,
                handle as int,
                BinaryOpType::Sum,
                lhs as int,
                rhs as int,
            ),
    {
        self.binary(BinaryOpType::Sum, lhs, rhs)
    }

    /// Builds `lhs * rhs`.
    pub fn mul(&mut self, lhs: CompNode, rhs: CompNode) -> (handle: CompNode)
        requires
            old(self).wf(),
            live(old(self)@, lhs as int),
            live(old(self)@, rhs as int),
        ensures
            final(self).wf(),
            final(self).same_kernel(*old(self)),
            built_binary(
                old(self)@,
                final(self)@,
                handle as int,
                BinaryOpType::Mul,
                lhs as int,
                rhs as int,
            ),
    {
        self.binary(BinaryOpType::Mul, lhs, rhs)
    }

    /// Builds `lhs - rhs`.
    pub fn sub(&mut self, lhs: CompNode, rhs: CompNode) -> (handle: CompNode)
        requires
            old(self).wf(),
            live(old(self)@, lhs as int),
            live(old(self)@, rhs as int),
        ensures
            final(self).wf(),
            final(self).same_kernel(*old(self)),
            built_binary(
                old(self)@,
                final(self)@,
                handle as int,
                BinaryOpType::Sub,
                lhs as int,
                rhs as int,
            ),
    {
        self.binary(BinaryOpType::Sub, lhs, rhs)
    }

    /// Builds `lhs / rhs`.
    pub fn div(&mut self, lhs: CompNode, rhs: CompNode) -> (handle: CompNode)
        requires
            old(self).wf(),
            live(old(self)@, lhs as int),
            live(old(self)@, rhs as int),
        ensures
            final(self).wf(),
            final(self).same_kernel(*old(self)),
            built_binary(
                old(self)@,
                final(self)@,
                handle as int,
                BinaryOpType::Div,
                lhs as int,
                rhs as int,
            ),
    {
        self.binary(BinaryOpType::Div, lhs, rhs)
    }

    /// Builds `arg` raised to the power held by the node `power`.
    pub fn powf(&mut self, arg: CompNode, power: CompNode) -> (handle: CompNode)
        requires
            old(self).wf(),
            live(old(self)@, arg as int),
            live(old(self)@, power as int),
        ensures
            final(self).wf(),
            final(self).same_kernel(*old(self)),
            built_binary(
                old(self)@,
                final(self)@,
                handle as int,
                BinaryOpType::Pow,
                arg as int,
                power as int,
            ),
    {
        self.binary(BinaryOpType::Pow, arg, power)
    }

    /// Builds the sine of `arg`.
    pub fn sin(&mut self, arg: CompNode) -> (handle: CompNode)
        requires
            old(self).wf(),
            live(old(self)@, arg as int),
        ensures
            final(self).wf(),
            final(self).same_kernel(*old(self)),
            built_unary(old(self)@, final(self)@, handle as int, UnaryOpType::Sin, arg as int),
    {
        self.unary(UnaryOpType::Sin, arg)
    }

    /// Builds the cosine of `arg`.
    pub fn cos(&mut self, arg: CompNode) -> (handle: CompNode)
        requires
            old(self).wf(),
            live(old(self)@, arg as int),
        ensures
            final(self).wf(),
            final(self).same_kernel(*old(self)),
            built_unary(old(self)@, final(self)@, handle as int, UnaryOpType::Cos, arg as int),
    {
        self.unary(UnaryOpType::Cos, arg)
    }

    /// Builds `arg` raised to the literal `power`. The literal becomes a
    /// constant node of its own, created just before the operator; as a
    /// constant never changes, the operator is registered below `arg` only.
    pub fn pow(&mut self, arg: CompNode, power: u32) -> (handle: CompNode)
        requires
            old(self).wf(),
            live(old(self)@, arg as int),
        ensures
            final(self).wf(),
            final(self).same_kernel(*old(self)),
            built_binary(
                old(self)@.push(Some(NodeView::Constant { value: power })),
                final(self)@,
                handle as int,
                BinaryOpType::Pow,
                arg as int,
                old(self)@.len() as int,
            ),
    {
        let exponent = self.create_constant(power);
        let ghost base = self@;
        let handle = self.push_slot(
            ArenaNode::BinaryOp {
                lhs: arg,
                rhs: exponent,
                cache: None,
                op_type: BinaryOpType::Pow,
            },
        );
        proof {
            let pushed = base.push(
                Some(
                    NodeView::BinaryOp {
                        lhs: arg as int,
                        rhs: exponent as int,
                        cache: None,
                        op_type: BinaryOpType::Pow,
                    },
                ),
            );
            assert(self@ =~= pushed);
            lemma_pushed_operator_structured(base, pushed);
            lemma_binary_keeps_invariant(
                base,
                self.relation(),
                BinaryOpType::Pow,
                arg as int,
                exponent as int,
            );
            lemma_linked_nowhere(
                linked(pushed, arg as int, handle as int),
                exponent as int,
                handle as int,
            );
        }
        self.add_dependency_link(arg, handle);
        handle
    }

    /// Gives up a node. A node that some existing operator still has as an
    /// operand is kept alive by it and stays; so does the graph on a handle
    /// that names no node. Otherwise the slot is vacated: the handle names no
    /// node from then on, and back-links to it no longer resolve.
    pub fn release(&mut self, node: CompNode) -> (released: bool)
        requires
            old(self).wf(),
        ensures
            final(self).wf(),
            final(self).same_kernel(*old(self)),
            released == (live(old(self)@, node as int) && !in_use(old(self)@, node as int)),
            final(self)@ == if released {
                old(self)@.update(node as int, None)
            } else {
                old(self)@
            },
    {
        if !self.is_live(node) || self.is_in_use(node) {
            return false;
        }
        proof {
            lemma_release_keeps_invariant(self@, self.relation(), node as int);
        }
        self.vacate(node);
        true
    }
}

} // verus!
