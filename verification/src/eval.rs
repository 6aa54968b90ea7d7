//! Memoised evaluation, and the invalidation that follows a change of input.

use crate::frame::{
    lemma_evaluates_agrees, lemma_first_unset_agrees, lemma_reaches_bounds,
    lemma_same_wiring_reaches, lemma_work_agrees,
};
use crate::graph::ArenaGraph;
use crate::model::{
    after_set, agree_under, available, cache_of, cache_ok, deps_of, evaluates, filled_under,
    first_unset, is_input, is_operator, live, node_ok, only_fills, reaches, request_of,
    same_wiring, shape, uses, well_formed, wiring, with_cache, work, Arith, Slots,
};
use crate::node::{ArenaNode, CompNode, NodeView};
use crate::ops::{Applied, Operation};
use crate::preserve::{
    lemma_agrees_on_available, lemma_set_keeps_invariant, lemma_store_keeps_invariant,
    lemma_values_below,
};
use crate::requests::lemma_only_fills_keeps_values;
use vstd::pervasive::unreached;
use vstd::prelude::*;
use vstd::string::*;

verus! {

/// The failure of an evaluation that met an input without a value.
#[derive(Debug, Clone, Copy, PartialEq, Eq)]
pub struct UnsetInput {
    /// The handle of the input.
    pub node: CompNode,
    /// The name the input was created with.
    pub name: &'static str,
}

impl UnsetInput {
    /// The text of the failure.
    pub open spec fn message_text(self) -> Seq<char> {
        "Input "@ + self.name@ + " value not set. Aborting compute"@
    }

    /// Returns the text of the failure, which names the input.
    pub fn message(&self) -> (text: String)
        ensures
            text@ == self.message_text(),
    {
        let mut text = String::from_str("Input ");
        text.append(self.name);
        text.append(" value not set. Aborting compute");
        text
    }
}

/// `post` is `pre` with some empty caches filled, and nothing has changed
/// outside what `node` reaches.
pub open spec fn fills_caches(pre: Slots, post: Slots, node: int) -> bool {
    &&& only_fills(pre, post)
    &&& forall|k: int| 0 <= k < pre.len() && !reaches(pre, node, k) ==> #[trigger] post[k] == pre[k]
}

/// What an evaluation of `node` does to a graph and returns.
///
/// It succeeds exactly when no input under `node` is unset. The result is
/// then a value that evaluating `node` from scratch on the current inputs
/// can produce, and `node` holds it afterwards, justified by the values its
/// operands hold; where `node` held a value already, that value is returned
/// and the graph is untouched. Otherwise the error names the first unset
/// input in depth-first order, left operand first, and `node` still holds
/// nothing.
pub open spec fn computed(
    pre: Slots,
    rel: Arith,
    node: int,
    post: Slots,
    res: Result<u32, UnsetInput>,
) -> bool {
    &&& fills_caches(pre, post, node)
    &&& match res {
        Ok(v) => {
            &&& first_unset(pre, node) is None
            &&& evaluates(pre, rel, node, v)
            &&& available(post, node) == Some(v)
            &&& cache_ok(post, rel, node)
            &&& available(pre, node) is Some ==> post == pre
        },
        Err(e) => {
            &&& first_unset(pre, node) == Some(e.node as int)
            &&& e.node < pre.len()
            &&& pre[e.node as int] matches Some(NodeView::Input { name, value, .. })
            &&& name == e.name@
            &&& value is None
            &&& post[e.node as int] == pre[e.node as int]
            &&& available(post, node) is None
        },
    }
}

/// The graph while input `i` is being set: the value is stored and the
/// caches named by the first `done` back-links are emptied.
pub open spec fn partly_set(s: Slots, i: int, v: u32, done: int) -> Slots {
    match s[i] {
        Some(NodeView::Input { name, value, deps }) if 0 <= i < s.len() => Seq::new(
            s.len(),
            |k: int|
                if k == i {
                    Some(NodeView::Input { name, value: Some(v), deps })
                } else if deps.take(done).contains(k) {
                    with_cache(s[k], None)
                } else {
                    s[k]
                },
        ),
        _ => s,
    }
}

/// Emptying the cache named by the next back-link is one more step of a set.
proof fn lemma_partly_set_step(s: Slots, i: int, v: u32, done: int)
    requires
        is_input(s, i),
        node_ok(s, i),
        0 <= done < deps_of(s, i).len(),
    ensures
        ({
            let d = deps_of(s, i)[done];
            let p = partly_set(s, i, v, done);
            &&& 0 <= d < s.len()
            &&& partly_set(s, i, v, done + 1) == p.update(d, with_cache(p[d], None))
        }),
{
    let deps = deps_of(s, i);
    let d = deps[done];
    let p = partly_set(s, i, v, done);
    let q = partly_set(s, i, v, done + 1);
    let u = p.update(d, with_cache(p[d], None));
    let before = deps.take(done);
    let after = deps.take(done + 1);
    assert(after =~= before.push(d));
    assert forall|k: int| 0 <= k < s.len() implies q[k] == u[k] by {
        if k == d {
            assert(after[done] == d);
        } else if k != i {
            if after.contains(k) {
                let j = choose|j: int| 0 <= j < after.len() && after[j] == k;
                assert(before[j] == k);
            }
            if before.contains(k) {
                let j = choose|j: int| 0 <= j < before.len() && before[j] == k;
                assert(after[j] == k);
            }
        }
    }
    assert(q =~= u);
}

impl<K: Fn(Operation) -> u32> ArenaGraph<K> {
    /// Returns what the node holds without evaluating anything: an input's
    /// value, a constant, or an operator's cached result. A handle that names
    /// no node holds nothing.
    pub fn get_cache_or_value(&self, node: CompNode) -> (held: Option<u32>)
        ensures
            held == available(self@, node as int),
    {
        match self.get(node) {
            Some(ArenaNode::Input { value, .. }) => *value,
            Some(ArenaNode::Constant { value }) => Some(*value),
            Some(ArenaNode::BinaryOp { cache, .. }) => *cache,
            Some(ArenaNode::UnaryOp { cache, .. }) => *cache,
            None => None,
        }
    }

    /// Empties the cache of an operator. Inputs, constants and vacant slots
    /// are left as they are.
    fn invalidate_cache(&mut self, node: CompNode)
        requires
            node < old(self)@.len(),
        ensures
            final(self).same_kernel(*old(self)),
            final(self)@ == old(self)@.update(
                node as int,
                with_cache(old(self)@[node as int], None),
            ),
    {
        self.store_cache(node, None);
    }

    /// Reads one back-link of an input.
    fn dependent_at(&self, input: CompNode, index: usize) -> (dep: CompNode)
        requires
            is_input(self@, input as int),
            index < deps_of(self@, input as int).len(),
        ensures
            dep as int == deps_of(self@, input as int)[index as int],
    {
        match self.get(input) {
            Some(ArenaNode::Input { deps, .. }) => deps[index],
            _ => unreached(),
        }
    }

    /// Gives an input a value and empties the cache of every node that
    /// depends on it. Back-links to released nodes are skipped. On a handle
    /// that names no input, nothing happens.
    pub fn set(&mut self, input: CompNode, value: u32)
        requires
            old(self).wf(),
        ensures
            final(self).wf(),
            final(self).same_kernel(*old(self)),
            final(self)@ == after_set(old(self)@, input as int, value),
    {
        match self.get(input) {
            Some(ArenaNode::Input { .. }) => {},
            _ => {
                return;
            },
        }
        let count = self.store_value(input, value);
        proof {
            assert(node_ok(old(self)@, input as int));
            assert(deps_of(old(self)@, input as int).take(0) =~= Seq::<int>::empty());
            assert(self@ =~= partly_set(old(self)@, input as int, value, 0));
        }
        let mut k: usize = 0;
        while k < count
            invariant
                k <= count,
                count == deps_of(old(self)@, input as int).len(),
                is_input(old(self)@, input as int),
                node_ok(old(self)@, input as int),
                self.same_kernel(*old(self)),
                self@ == partly_set(old(self)@, input as int, value, k as int),
            decreases count - k,
        {
            let dep = self.dependent_at(input, k);
            proof {
                lemma_partly_set_step(old(self)@, input as int, value, k as int);
            }
            self.invalidate_cache(dep);
            k += 1;
        }
        proof {
            assert(deps_of(old(self)@, input as int).take(count as int) =~= deps_of(
                old(self)@,
                input as int,
            ));
            assert(self@ =~= after_set(old(self)@, input as int, value));
            lemma_set_keeps_invariant(old(self)@, old(self).relation(), input as int, value);
        }
    }

    /// Stores the result of an operator that was just evaluated.
    fn fill_cache(&mut self, node: CompNode, result: u32)
        requires
            old(self).wf(),
            is_operator(old(self)@, node as int),
            cache_of(old(self)@, node as int) is None,
            cache_ok(
                old(self)@.update(
                    node as int,
                    with_cache(old(self)@[node as int], Some(result)),
                ),
                old(self).relation(),
                node as int,
            ),
        ensures
            final(self).wf(),
            final(self).same_kernel(*old(self)),
            final(self)@ == old(self)@.update(
                node as int,
                with_cache(old(self)@[node as int], Some(result)),
            ),
    {
        proof {
            lemma_store_keeps_invariant(self@, self.relation(), node as int, result);
        }
        self.store_cache(node, Some(result));
    }

    /// Evaluates a node, reusing every cached result on the way and caching
    /// every result it has to work out. The kernel is asked once for each
    /// operator worked out, operands before the operator and left before
    /// right, and for nothing else.
    pub fn compute(&mut self, node: CompNode) -> (res: Result<u32, UnsetInput>)
        requires
            old(self).wf(),
            live(old(self)@, node as int),
        ensures
            final(self).wf(),
            final(self).relation() == old(self).relation(),
            computed(old(self)@, old(self).relation(), node as int, final(self)@, res),
            final(self).applied() == old(self).applied() + work(
                old(self)@,
                final(self)@,
                node as int,
            ),
        decreases node,
    {
        proof {
            assert(node_ok(self@, node as int));
            if available(self@, node as int) is Some {
                lemma_agrees_on_available(self@, self.relation(), node as int);
            }
        }
        match self.get(node) {
            Some(ArenaNode::Constant { value }) => Ok(*value),
            Some(ArenaNode::Input { name, value, .. }) => match value {
                Some(v) => Ok(*v),
                None => Err(UnsetInput { node, name: *name }),
            },
            Some(ArenaNode::BinaryOp { lhs, rhs, cache, op_type }) => match cache {
                Some(cached) => Ok(*cached),
                None => {
                    let (lhs, rhs, op) = (*lhs, *rhs, *op_type);
                    let a = match self.compute(lhs) {
                        Ok(a) => a,
                        Err(e) => {
                            proof {
                                lemma_fills_under_operand(
                                    old(self)@,
                                    self@,
                                    node as int,
                                    lhs as int,
                                );
                                lemma_operand_spares_node(
                                    old(self)@,
                                    self@,
                                    node as int,
                                    lhs as int,
                                );
                            }
                            return Err(e);
                        },
                    };
                    let ghost mid = self@;
                    proof {
                        lemma_fills_under_operand(old(self)@, mid, node as int, lhs as int);
                        lemma_fills_agree(old(self)@, mid, lhs as int, rhs as int);
                        lemma_first_unset_agrees(old(self)@, mid, rhs as int);
                    }
                    let b = match self.compute(rhs) {
                        Ok(b) => b,
                        Err(e) => {
                            proof {
                                lemma_fills_under_operand(mid, self@, node as int, rhs as int);
                                lemma_fills_compose(old(self)@, mid, self@, node as int);
                                lemma_operand_spares_node(old(self)@, mid, node as int, lhs as int);
                                lemma_operand_spares_node(mid, self@, node as int, rhs as int);
                                lemma_work_of_binary(
                                    old(self)@,
                                    mid,
                                    self@,
                                    self@,
                                    self.relation(),
                                    node as int,
                                );
                            }
                            return Err(e);
                        },
                    };
                    let ghost right_done = self@;
                    let result = self.apply(node, Operation::Binary { op, lhs: a, rhs: b });
                    proof {
                        lemma_fills_under_operand(mid, self@, node as int, rhs as int);
                        lemma_fills_compose(old(self)@, mid, self@, node as int);
                        lemma_evaluates_agrees(old(self)@, mid, self.relation(), rhs as int, b);
                        if reaches(old(self)@, lhs as int, node as int) {
                            lemma_reaches_bounds(old(self)@, lhs as int, node as int);
                        }
                        if reaches(mid, rhs as int, node as int) {
                            lemma_reaches_bounds(mid, rhs as int, node as int);
                        }
                        assert(self.relation()(Operation::Binary { op, lhs: a, rhs: b }, result));
                        assert(self@[node as int] == old(self)@[node as int]);
                        assert(available(self@, lhs as int) == Some(a));
                    }
                    self.fill_cache(node, result);
                    proof {
                        lemma_work_of_binary(
                            old(self)@,
                            mid,
                            right_done,
                            self@,
                            self.relation(),
                            node as int,
                        );
                    }
                    Ok(result)
                },
            },
            Some(ArenaNode::UnaryOp { arg, cache, op_type }) => match cache {
                Some(cached) => Ok(*cached),
                None => {
                    let (arg, op) = (*arg, *op_type);
                    let a = match self.compute(arg) {
                        Ok(a) => a,
                        Err(e) => {
                            proof {
                                lemma_fills_under_operand(
                                    old(self)@,
                                    self@,
                                    node as int,
                                    arg as int,
                                );
                                lemma_operand_spares_node(
                                    old(self)@,
                                    self@,
                                    node as int,
                                    arg as int,
                                );
                            }
                            return Err(e);
                        },
                    };
                    let ghost inner_done = self@;
                    let result = self.apply(node, Operation::Unary { op, arg: a });
                    proof {
                        lemma_fills_under_operand(old(self)@, self@, node as int, arg as int);
                        if reaches(old(self)@, arg as int, node as int) {
                            lemma_reaches_bounds(old(self)@, arg as int, node as int);
                        }
                        assert(self.relation()(Operation::Unary { op, arg: a }, result));
                        assert(self@[node as int] == old(self)@[node as int]);
                    }
                    self.fill_cache(node, result);
                    proof {
                        lemma_work_of_unary(
                            old(self)@,
                            inner_done,
                            self@,
                            self.relation(),
                            node as int,
                        );
                    }
                    Ok(result)
                },
            },
            None => unreached(),
        }
    }
}

/// Caches filled under an operand of `node` are caches filled under `node`.
proof fn lemma_fills_under_operand(pre: Slots, post: Slots, node: int, child: int)
    requires
        fills_caches(pre, post, child),
        0 <= child < node < pre.len(),
        uses(pre[node], child),
    ensures
        fills_caches(pre, post, node),
{
    assert forall|k: int| 0 <= k < pre.len() && !reaches(pre, node, k) implies #[trigger] post[k]
        == pre[k] by {
        if reaches(pre, child, k) {
            crate::frame::lemma_reaches_through_operand(pre, node, child, k);
        }
    }
}

/// Filling caches changes no shape, so the graph before and the graph after
/// agree under every node.
proof fn lemma_fills_agree(pre: Slots, post: Slots, node: int, n: int)
    requires
        fills_caches(pre, post, node),
        0 <= n < pre.len(),
    ensures
        agree_under(pre, post, n),
        same_wiring(pre, post),
{
    assert forall|k: int| 0 <= k < pre.len() implies shape(#[trigger] pre[k]) == shape(post[k]) by {
        assert(with_cache(post[k], None) == with_cache(pre[k], None));
    }
    assert forall|k: int| #[trigger] reaches(pre, n, k) implies 0 <= k < pre.len() && k
        < post.len() && shape(pre[k]) == shape(post[k]) by {
        lemma_reaches_bounds(pre, n, k);
    }
}

/// Filling caches under `node` twice in a row is filling caches under `node`.
proof fn lemma_fills_compose(pre: Slots, mid: Slots, post: Slots, node: int)
    requires
        fills_caches(pre, mid, node),
        fills_caches(mid, post, node),
        0 <= node < pre.len(),
    ensures
        fills_caches(pre, post, node),
{
    lemma_fills_agree(pre, mid, node, node);
    assert forall|k: int| 0 <= k < pre.len() implies {
        &&& with_cache(#[trigger] post[k], None) == with_cache(pre[k], None)
        &&& cache_of(pre, k) is Some ==> post[k] == pre[k]
        &&& !reaches(pre, node, k) ==> post[k] == pre[k]
    } by {
        assert(with_cache(mid[k], None) == with_cache(pre[k], None));
        lemma_same_wiring_reaches(pre, mid, node, k);
    }
}

/// The requests of the evaluation of a two-operand node whose left operand
/// gave a value: those of the left operand, then those of the right, then,
/// where the right operand gave a value too, the one for the node itself.
proof fn lemma_work_of_binary(
    pre: Slots,
    mid: Slots,
    right_done: Slots,
    post: Slots,
    rel: Arith,
    n: int,
)
    requires
        well_formed(mid, rel),
        0 <= n < pre.len(),
        node_ok(pre, n),
        pre[n] is Some && pre[n]->0 is BinaryOp,
        available(pre, n) is None,
        pre[n] matches Some(NodeView::BinaryOp { lhs, rhs, .. }) && fills_caches(pre, mid, lhs)
            && available(mid, lhs) is Some && fills_caches(mid, right_done, rhs),
        post == right_done || post == right_done.update(
            n,
            with_cache(right_done[n], available(post, n)),
        ),
    ensures
        pre[n] matches Some(NodeView::BinaryOp { lhs, rhs, .. }) && work(pre, post, n)
            == if available(right_done, rhs) is Some {
            (work(pre, mid, lhs) + work(mid, right_done, rhs)).push(
                Applied { node: n, request: request_of(right_done, n) },
            )
        } else {
            work(pre, mid, lhs) + work(mid, right_done, rhs)
        },
{
    match pre[n] {
        Some(NodeView::BinaryOp { lhs, rhs, op_type, .. }) => {
            lemma_fills_agree(pre, mid, lhs, lhs);
            lemma_fills_agree(mid, right_done, rhs, rhs);
            assert(same_wiring(pre, post)) by {
                assert forall|k: int| 0 <= k < pre.len() implies wiring(#[trigger] pre[k])
                    == wiring(post[k]) by {
                    assert(wiring(pre[k]) == wiring(mid[k]));
                    assert(wiring(mid[k]) == wiring(right_done[k]));
                }
            }
            assert(same_wiring(mid, post)) by {
                assert forall|k: int| 0 <= k < mid.len() implies wiring(#[trigger] mid[k])
                    == wiring(post[k]) by {
                    assert(wiring(mid[k]) == wiring(right_done[k]));
                }
            }
            assert forall|k: int| #[trigger] reaches(pre, lhs, k) implies mid[k] == post[k] by {
                lemma_reaches_bounds(pre, lhs, k);
                lemma_same_wiring_reaches(pre, mid, lhs, k);
                lemma_values_below(mid, rel, lhs, k);
                lemma_only_fills_keeps_values(mid, right_done, k);
            }
            lemma_work_agrees(pre, mid, post, lhs);
            assert(filled_under(pre, post, lhs) =~= mid) by {
                assert forall|k: int| 0 <= k < pre.len() implies filled_under(pre, post, lhs)[k]
                    == mid[k] by {
                    if reaches(pre, lhs, k) {
                    } else {
                    }
                }
            }
            assert forall|k: int| #[trigger] reaches(mid, rhs, k) implies right_done[k]
                == post[k] by {
                lemma_reaches_bounds(mid, rhs, k);
            }
            lemma_work_agrees(mid, right_done, post, rhs);
            assert(reaches(pre, lhs, lhs));
            lemma_reaches_bounds(pre, lhs, lhs);
        },
        _ => {},
    }
}

/// The requests of the evaluation of a one-operand node whose operand gave
/// a value: those of the operand, then the one for the node itself.
proof fn lemma_work_of_unary(pre: Slots, inner_done: Slots, post: Slots, rel: Arith, n: int)
    requires
        0 <= n < pre.len(),
        node_ok(pre, n),
        pre[n] is Some && pre[n]->0 is UnaryOp,
        available(pre, n) is None,
        pre[n] matches Some(NodeView::UnaryOp { arg, .. }) && fills_caches(pre, inner_done, arg)
            && available(inner_done, arg) is Some,
        post == inner_done.update(n, with_cache(inner_done[n], available(post, n))),
    ensures
        pre[n] matches Some(NodeView::UnaryOp { arg, .. }) && work(pre, post, n) == work(
            pre,
            inner_done,
            arg,
        ).push(Applied { node: n, request: request_of(inner_done, n) }),
{
    match pre[n] {
        Some(NodeView::UnaryOp { arg, op_type, .. }) => {
            lemma_fills_agree(pre, inner_done, arg, arg);
            assert(same_wiring(pre, post)) by {
                assert forall|k: int| 0 <= k < pre.len() implies wiring(#[trigger] pre[k])
                    == wiring(post[k]) by {
                    assert(wiring(pre[k]) == wiring(inner_done[k]));
                }
            }
            assert forall|k: int| #[trigger] reaches(pre, arg, k) implies inner_done[k]
                == post[k] by {
                lemma_reaches_bounds(pre, arg, k);
            }
            lemma_work_agrees(pre, inner_done, post, arg);
        },
        _ => {},
    }
}

/// Filling caches under an operand of a node leaves the node's own slot as
/// it is.
proof fn lemma_operand_spares_node(pre: Slots, post: Slots, node: int, child: int)
    requires
        fills_caches(pre, post, child),
        0 <= child < node < pre.len(),
    ensures
        post[node] == pre[node],
{
    if reaches(pre, child, node) {
        lemma_reaches_bounds(pre, child, node);
    }
}

} // verus!
