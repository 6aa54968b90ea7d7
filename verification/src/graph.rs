//! The arena that owns the nodes. This module alone sees how a graph is
//! stored; every other module works through the operations it offers.

use crate::frame::{lemma_existing_none, lemma_existing_step};
use crate::model::{
    deps_of, existing, in_use, is_input, live, resolvable, uses, well_formed, with_cache, Arith,
    Slots,
};
use crate::node::{handles_of, ArenaNode, CompNode, NodeView};
use crate::ops::{Applied, Operation};
use vstd::pervasive::unreached;
use vstd::prelude::*;

verus! {

/// What a kernel guarantees of its results, as a relation between a request
/// and a result.
pub open spec fn arith_of<K: Fn(Operation) -> u32>(kernel: K) -> Arith {
    |o: Operation, r: u32| kernel.ensures((o,), r)
}

/// The view of one slot of the arena.
pub open spec fn slot_view(slot: Option<ArenaNode>) -> Option<NodeView> {
    match slot {
        Some(node) => Some(node@),
        None => None,
    }
}

/// A computation graph. Nodes live in an arena and are named by handles, the
/// indices at which they were created; a handle is never reused. The kernel
/// `K` performs the scalar arithmetic on bit patterns, and the graph keeps
/// a record, in ghost state, of every request it makes to the kernel.
pub struct ArenaGraph<K> {
    slots: Vec<Option<ArenaNode>>,
    kernel: K,
    applied: Ghost<Seq<Applied>>,
}

impl<K: Fn(Operation) -> u32> ArenaGraph<K> {
    /// The slots of the arena, as the model sees them.
    pub closed spec fn view(&self) -> Slots {
        self.slots@.map_values(|slot: Option<ArenaNode>| slot_view(slot))
    }

    /// What the graph's kernel may return for each request.
    pub closed spec fn relation(&self) -> Arith {
        arith_of(self.kernel)
    }

    /// The kernel can be called on every request.
    pub closed spec fn kernel_total(&self) -> bool {
        forall|o: Operation| #[trigger] self.kernel.requires((o,))
    }

    /// The requests made to the kernel since the graph was created, oldest
    /// first, each with the node it was made for.
    pub closed spec fn applied(&self) -> Seq<Applied> {
        self.applied@
    }

    /// The graph has the kernel of `before` and has made no request since.
    pub open spec fn same_kernel(&self, before: Self) -> bool {
        &&& self.relation() == before.relation()
        &&& self.kernel_total() == before.kernel_total()
        &&& self.applied() == before.applied()
    }

    /// The invariant that every operation on the graph keeps.
    pub open spec fn wf(&self) -> bool {
        &&& self.kernel_total()
        &&& well_formed(self@, self.relation())
    }

    /// Creates an empty graph whose arithmetic is done by `kernel`.
    pub fn new(kernel: K) -> (graph: Self)
        requires
            forall|o: Operation| #[trigger] kernel.requires((o,)),
        ensures
            graph.wf(),
            graph@ == Slots::empty(),
            graph.relation() == arith_of(kernel),
            graph.applied() == Seq::<Applied>::empty(),
    {
        let graph = ArenaGraph { slots: Vec::new(), kernel, applied: Ghost(Seq::empty()) };
        assert(graph@ =~= Slots::empty());
        graph
    }

    /// The number of handles handed out so far.
    pub fn len(&self) -> (count: usize)
        ensures
            count == self@.len(),
    {
        self.slots.len()
    }

    /// Tells whether `handle` names a node that still exists.
    pub fn is_live(&self, handle: CompNode) -> (alive: bool)
        ensures
            alive == live(self@, handle as int),
    {
        handle < self.slots.len() && self.slots[handle].is_some()
    }

    /// Returns the node that `handle` names, if it still exists.
    pub fn get(&self, handle: CompNode) -> (node: Option<&ArenaNode>)
        ensures
            match node {
                Some(found) => live(self@, handle as int) && self@[handle as int] == Some(found@),
                None => !live(self@, handle as int),
            },
    {
        if handle < self.slots.len() {
            self.slots[handle].as_ref()
        } else {
            None
        }
    }

    /// Lists, in the order in which they were registered, the dependents of
    /// an input that still exist. A handle that names no input has none.
    pub fn resolvable_dependents(&self, input: CompNode) -> (found: Vec<CompNode>)
        ensures
            handles_of(found@) == resolvable(self@, input as int),
            forall|k: int| 0 <= k < found@.len() ==> live(self@, #[trigger] found@[k] as int),
    {
        let mut found: Vec<CompNode> = Vec::new();
        proof {
            lemma_existing_none(self@);
        }
        match self.get(input) {
            Some(ArenaNode::Input { deps, .. }) => {
                let ghost all = deps_of(self@, input as int);
                let mut k: usize = 0;
                assert(all.take(0) =~= Seq::<int>::empty());
                while k < deps.len()
                    invariant
                        k <= deps.len(),
                        all == handles_of(deps@),
                        handles_of(found@) == existing(self@, all.take(k as int)),
                        forall|j: int|
                            0 <= j < found@.len() ==> live(self@, #[trigger] found@[j] as int),
                    decreases deps.len() - k,
                {
                    let dep = deps[k];
                    proof {
                        lemma_existing_step(self@, all, k as int);
                    }
                    if self.is_live(dep) {
                        found.push(dep);
                        assert(handles_of(found@) =~= existing(self@, all.take(k as int)).push(
                            dep as int,
                        ));
                    }
                    k += 1;
                }
                assert(all.take(k as int) =~= all);
                found
            },
            _ => {
                assert(handles_of(found@) =~= resolvable(self@, input as int));
                found
            },
        }
    }

    /// Tells whether the slot holds an operator with `node` as an operand.
    fn slot_uses(&self, slot: CompNode, node: CompNode) -> (found: bool)
        requires
            slot < self@.len(),
        ensures
            found == uses(self@[slot as int], node as int),
    {
        match &self.slots[slot] {
            Some(ArenaNode::BinaryOp { lhs, rhs, .. }) => *lhs == node || *rhs == node,
            Some(ArenaNode::UnaryOp { arg, .. }) => *arg == node,
            _ => false,
        }
    }

    /// Tells whether some existing operator has `node` as an operand.
    pub fn is_in_use(&self, node: CompNode) -> (used: bool)
        ensures
            used == in_use(self@, node as int),
    {
        let count = self.slots.len();
        let mut k: usize = 0;
        while k < count
            invariant
                k <= count,
                count == self@.len(),
                forall|m: int| 0 <= m < k ==> !uses(#[trigger] self@[m], node as int),
            decreases count - k,
        {
            if self.slot_uses(k, node) {
                return true;
            }
            k += 1;
        }
        false
    }

    /// Appends a node in a new slot and returns its handle.
    pub(crate) fn push_slot(&mut self, node: ArenaNode) -> (handle: CompNode)
        ensures
            final(self).same_kernel(*old(self)),
            handle == old(self)@.len(),
            final(self)@ == old(self)@.push(Some(node@)),
    {
        let handle = self.slots.len();
        self.slots.push(Some(node));
        assert(self@ =~= old(self)@.push(Some(node@)));
        handle
    }

    /// Appends `dep` to the back-links of the input `input`.
    pub(crate) fn push_dependent(&mut self, input: CompNode, dep: CompNode)
        requires
            is_input(old(self)@, input as int),
        ensures
            final(self).same_kernel(*old(self)),
            old(self)@[input as int] matches Some(NodeView::Input { name, value, deps })
                && final(self)@ == old(self)@.update(
                input as int,
                Some(NodeView::Input { name, value, deps: deps.push(dep as int) }),
            ),
    {
        match &mut self.slots[input] {
            Some(ArenaNode::Input { deps, .. }) => {
                deps.push(dep);
            },
            _ => {},
        }
        proof {
            let before = old(self).slots@[input as int]->0;
            let after = self.slots@[input as int]->0;
            assert(after@->deps =~= before@->deps.push(dep as int));
            assert(self@ =~= old(self)@.update(input as int, Some(after@)));
        }
    }

    /// Replaces the cache of an operator; any other slot is left as it is.
    pub(crate) fn store_cache(&mut self, node: CompNode, cache: Option<u32>)
        requires
            node < old(self)@.len(),
        ensures
            final(self).same_kernel(*old(self)),
            final(self)@ == old(self)@.update(
                node as int,
                with_cache(old(self)@[node as int], cache),
            ),
    {
        match &mut self.slots[node] {
            Some(ArenaNode::BinaryOp { cache: cell, .. }) => {
                *cell = cache;
            },
            Some(ArenaNode::UnaryOp { cache: cell, .. }) => {
                *cell = cache;
            },
            _ => {},
        }
        assert(self@ =~= old(self)@.update(
            node as int,
            with_cache(old(self)@[node as int], cache),
        ));
    }

    /// Stores a value in an input and returns the number of its back-links.
    pub(crate) fn store_value(&mut self, input: CompNode, value: u32) -> (count: usize)
        requires
            is_input(old(self)@, input as int),
        ensures
            final(self).same_kernel(*old(self)),
            count == deps_of(old(self)@, input as int).len(),
            old(self)@[input as int] matches Some(NodeView::Input { name, deps, .. })
                && final(self)@ == old(self)@.update(
                input as int,
                Some(NodeView::Input { name, value: Some(value), deps }),
            ),
    {
        let count = match &mut self.slots[input] {
            Some(ArenaNode::Input { value: cell, deps, .. }) => {
                *cell = Some(value);
                deps.len()
            },
            _ => unreached(),
        };
        proof {
            let after = self.slots@[input as int]->0;
            assert(self@ =~= old(self)@.update(input as int, Some(after@)));
        }
        count
    }

    /// Vacates a slot.
    pub(crate) fn vacate(&mut self, node: CompNode)
        requires
            node < old(self)@.len(),
        ensures
            final(self).same_kernel(*old(self)),
            final(self)@ == old(self)@.update(node as int, None),
    {
        self.slots.set(node, None);
        assert(self@ =~= old(self)@.update(node as int, None));
    }

    /// Hands the kernel the request that works out `node`, and records it.
    pub(crate) fn apply(&mut self, node: CompNode, request: Operation) -> (result: u32)
        requires
            old(self).kernel_total(),
        ensures
            final(self)@ == old(self)@,
            final(self).relation() == old(self).relation(),
            final(self).kernel_total(),
            final(self).applied() == old(self).applied().push(
                Applied { node: node as int, request },
            ),
            old(self).relation()(request, result),
    {
        let result = (self.kernel)(request);
        self.applied = Ghost(self.applied@.push(Applied { node: node as int, request }));
        result
    }
}

} // verus!
