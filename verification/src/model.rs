//! The mathematical model of a graph: a sequence of slots, each vacant or
//! holding a node, and the relations that give the graph its meaning.

use crate::node::NodeView;
use crate::ops::{Applied, BinaryOpType, Operation, UnaryOpType};
use vstd::prelude::*;

verus! {

/// The slots of an arena. Slot `n` is `None` once the node with handle `n`
/// has been released.
pub type Slots = Seq<Option<NodeView>>;

/// What an arithmetic kernel may return: `rel(request, result)` holds of
/// every result the kernel can give for `request`.
pub type Arith = spec_fn(Operation, u32) -> bool;

/// Handle `n` names a node that still exists.
pub open spec fn live(s: Slots, n: int) -> bool {
    0 <= n < s.len() && s[n] is Some
}

/// Handle `n` names an existing input.
pub open spec fn is_input(s: Slots, n: int) -> bool {
    live(s, n) && s[n]->0 is Input
}

/// Handle `n` names an existing operator node.
pub open spec fn is_operator(s: Slots, n: int) -> bool {
    live(s, n) && (s[n]->0 is BinaryOp || s[n]->0 is UnaryOp)
}

/// Node `m` can be reached from node `n` along forward (operand) edges.
/// Every node reaches itself.
pub open spec fn reaches(s: Slots, n: int, m: int) -> bool
    decreases n,
{
    if n == m {
        true
    } else if 0 <= n < s.len() {
        match s[n] {
            Some(NodeView::BinaryOp { lhs, rhs, .. }) => {
                ||| (0 <= lhs < n && reaches(s, lhs, m))
                ||| (0 <= rhs < n && reaches(s, rhs, m))
            },
            Some(NodeView::UnaryOp { arg, .. }) => 0 <= arg < n && reaches(s, arg, m),
            _ => false,
        }
    } else {
        false
    }
}

/// The number of distinct forward paths from node `n` down to node `m`.
pub open spec fn paths(s: Slots, n: int, m: int) -> nat
    decreases n,
{
    if n == m {
        1
    } else if 0 <= n < s.len() {
        match s[n] {
            Some(NodeView::BinaryOp { lhs, rhs, .. }) => {
                (if 0 <= lhs < n {
                    paths(s, lhs, m)
                } else {
                    0
                }) + (if 0 <= rhs < n {
                    paths(s, rhs, m)
                } else {
                    0
                })
            },
            Some(NodeView::UnaryOp { arg, .. }) => if 0 <= arg < n {
                paths(s, arg, m)
            } else {
                0
            },
            _ => 0,
        }
    } else {
        0
    }
}

/// `v` is a value that evaluating node `n` from scratch can produce: inputs
/// and constants give their stored value, an operator gives whatever the
/// kernel may return on values of its operands. Caches play no part.
pub open spec fn evaluates(s: Slots, rel: Arith, n: int, v: u32) -> bool
    decreases n,
{
    if 0 <= n < s.len() {
        match s[n] {
            Some(NodeView::Input { value, .. }) => value == Some(v),
            Some(NodeView::Constant { value }) => value == v,
            Some(NodeView::BinaryOp { lhs, rhs, op_type, .. }) => {
                &&& 0 <= lhs < n
                &&& 0 <= rhs < n
                &&& exists|a: u32, b: u32|
                    evaluates(s, rel, lhs, a) && evaluates(s, rel, rhs, b) && #[trigger] rel(
                        Operation::Binary { op: op_type, lhs: a, rhs: b },
                        v,
                    )
            },
            Some(NodeView::UnaryOp { arg, op_type, .. }) => {
                &&& 0 <= arg < n
                &&& exists|a: u32|
                    evaluates(s, rel, arg, a) && #[trigger] rel(
                        Operation::Unary { op: op_type, arg: a },
                        v,
                    )
            },
            None => false,
        }
    } else {
        false
    }
}

/// The first input without a value that a depth-first walk from node `n`
/// meets, left operand before right; `None` when every input under `n` has
/// a value.
pub open spec fn first_unset(s: Slots, n: int) -> Option<int>
    decreases n,
{
    if 0 <= n < s.len() {
        match s[n] {
            Some(NodeView::Input { value, .. }) => if value is None {
                Some(n)
            } else {
                None
            },
            Some(NodeView::BinaryOp { lhs, rhs, .. }) => {
                let left = if 0 <= lhs < n {
                    first_unset(s, lhs)
                } else {
                    None
                };
                if left is Some {
                    left
                } else if 0 <= rhs < n {
                    first_unset(s, rhs)
                } else {
                    None
                }
            },
            Some(NodeView::UnaryOp { arg, .. }) => if 0 <= arg < n {
                first_unset(s, arg)
            } else {
                None
            },
            _ => None,
        }
    } else {
        None
    }
}

/// The value a node holds right now without any evaluation: an input's
/// value, a constant, or an operator's cached result.
pub open spec fn available(s: Slots, n: int) -> Option<u32> {
    if 0 <= n < s.len() {
        match s[n] {
            Some(NodeView::Input { value, .. }) => value,
            Some(NodeView::Constant { value }) => Some(value),
            Some(NodeView::BinaryOp { cache, .. }) => cache,
            Some(NodeView::UnaryOp { cache, .. }) => cache,
            None => None,
        }
    } else {
        None
    }
}

/// The cached result of an operator node; `None` for every other slot.
pub open spec fn cache_of(s: Slots, n: int) -> Option<u32> {
    if 0 <= n < s.len() {
        match s[n] {
            Some(NodeView::BinaryOp { cache, .. }) => cache,
            Some(NodeView::UnaryOp { cache, .. }) => cache,
            _ => None,
        }
    } else {
        None
    }
}

/// The back-links stored at an input; empty for every other slot.
pub open spec fn deps_of(s: Slots, n: int) -> Seq<int> {
    if 0 <= n < s.len() {
        match s[n] {
            Some(NodeView::Input { deps, .. }) => deps,
            _ => Seq::empty(),
        }
    } else {
        Seq::empty()
    }
}

/// A slot with its cache and back-links erased: what remains is the part
/// that evaluation from scratch depends on.
pub open spec fn shape(slot: Option<NodeView>) -> Option<NodeView> {
    match slot {
        Some(NodeView::Input { name, value, .. }) => Some(
            NodeView::Input { name, value, deps: Seq::empty() },
        ),
        Some(NodeView::Constant { value }) => Some(NodeView::Constant { value }),
        Some(NodeView::BinaryOp { lhs, rhs, op_type, .. }) => Some(
            NodeView::BinaryOp { lhs, rhs, cache: None, op_type },
        ),
        Some(NodeView::UnaryOp { arg, op_type, .. }) => Some(
            NodeView::UnaryOp { arg, cache: None, op_type },
        ),
        None => None,
    }
}

/// A slot reduced to its forward edges: which kind of node it holds and,
/// for an operator, over which operands.
pub open spec fn wiring(slot: Option<NodeView>) -> Option<NodeView> {
    match slot {
        Some(NodeView::Input { .. }) => Some(
            NodeView::Input { name: Seq::empty(), value: None, deps: Seq::empty() },
        ),
        Some(NodeView::Constant { .. }) => Some(NodeView::Constant { value: 0 }),
        other => shape(other),
    }
}

/// The two graphs have the same slots with the same forward edges.
pub open spec fn same_wiring(s1: Slots, s2: Slots) -> bool {
    &&& s1.len() == s2.len()
    &&& forall|k: int| 0 <= k < s1.len() ==> wiring(#[trigger] s1[k]) == wiring(s2[k])
}

/// A slot with its cache replaced by `cache`; slots that are not operators
/// are returned as they are.
pub open spec fn with_cache(slot: Option<NodeView>, cache: Option<u32>) -> Option<NodeView> {
    match slot {
        Some(NodeView::BinaryOp { lhs, rhs, op_type, .. }) => Some(
            NodeView::BinaryOp { lhs, rhs, cache, op_type },
        ),
        Some(NodeView::UnaryOp { arg, op_type, .. }) => Some(
            NodeView::UnaryOp { arg, cache, op_type },
        ),
        other => other,
    }
}

/// The two graphs hold the same shape in every slot that `n` reaches in the
/// first.
pub open spec fn agree_under(s1: Slots, s2: Slots, n: int) -> bool {
    forall|k: int| #[trigger]
        reaches(s1, n, k) ==> 0 <= k < s1.len() && k < s2.len() && shape(s1[k]) == shape(s2[k])
}

/// Slot `n` is structurally sound: an operator's operands are existing
/// nodes created before it, and an input's back-links point at slots
/// created after it.
pub open spec fn node_ok(s: Slots, n: int) -> bool {
    match s[n] {
        Some(NodeView::BinaryOp { lhs, rhs, .. }) => {
            &&& 0 <= lhs < n
            &&& 0 <= rhs < n
            &&& live(s, lhs)
            &&& live(s, rhs)
        },
        Some(NodeView::UnaryOp { arg, .. }) => 0 <= arg < n && live(s, arg),
        Some(NodeView::Input { deps, .. }) => forall|k: int|
            0 <= k < deps.len() ==> n < #[trigger] deps[k] < s.len(),
        _ => true,
    }
}

/// Every slot is structurally sound. This makes the forward edges acyclic and
/// keeps every operand alive as long as a node that uses it.
pub open spec fn structured(s: Slots) -> bool {
    forall|n: int| 0 <= n < s.len() ==> #[trigger] node_ok(s, n)
}

/// Every existing operator is listed at every input it reaches.
pub open spec fn links_complete(s: Slots) -> bool {
    forall|m: int, i: int|
        is_operator(s, m) && is_input(s, i) && #[trigger] reaches(s, m, i) ==> deps_of(
            s,
            i,
        ).contains(m)
}

/// Every back-link that still resolves points at an operator that reaches
/// the input holding it.
pub open spec fn links_sound(s: Slots) -> bool {
    forall|i: int, k: int|
        is_input(s, i) && 0 <= k < deps_of(s, i).len() && live(s, #[trigger] deps_of(s, i)[k])
            ==> is_operator(s, deps_of(s, i)[k]) && reaches(s, deps_of(s, i)[k], i)
}

/// The cache of slot `m`, if filled, holds a result that the kernel may give
/// on the values its operands hold right now.
pub open spec fn cache_ok(s: Slots, rel: Arith, m: int) -> bool {
    match s[m] {
        Some(NodeView::BinaryOp { lhs, rhs, cache: Some(v), op_type }) => {
            &&& available(s, lhs) is Some
            &&& available(s, rhs) is Some
            &&& rel(
                Operation::Binary {
                    op: op_type,
                    lhs: available(s, lhs)->0,
                    rhs: available(s, rhs)->0,
                },
                v,
            )
        },
        Some(NodeView::UnaryOp { arg, cache: Some(v), op_type }) => {
            &&& available(s, arg) is Some
            &&& rel(Operation::Unary { op: op_type, arg: available(s, arg)->0 }, v)
        },
        _ => true,
    }
}

/// Every filled cache is justified by the values below it.
pub open spec fn coherent(s: Slots, rel: Arith) -> bool {
    forall|m: int| 0 <= m < s.len() ==> #[trigger] cache_ok(s, rel, m)
}

/// The invariant of a graph.
pub open spec fn well_formed(s: Slots, rel: Arith) -> bool {
    &&& structured(s)
    &&& links_complete(s)
    &&& links_sound(s)
    &&& coherent(s, rel)
}

/// `n` copies of `x`.
pub open spec fn copies(x: int, n: nat) -> Seq<int> {
    Seq::new(n, |j: int| x)
}

/// The graph after `dep` has been registered at every input under `from`:
/// each input receives one back-link per forward path from `from` down to it.
pub open spec fn linked(s: Slots, from: int, dep: int) -> Slots {
    Seq::new(
        s.len(),
        |k: int|
            match s[k] {
                Some(NodeView::Input { name, value, deps }) => Some(
                    NodeView::Input { name, value, deps: deps + copies(dep, paths(s, from, k)) },
                ),
                other => other,
            },
    )
}

/// The graph after a new two-operand node over `lhs` and `rhs` has been
/// appended with an empty cache and registered below both operands.
pub open spec fn with_binary(s: Slots, op_type: BinaryOpType, lhs: int, rhs: int) -> Slots {
    let n = s.len() as int;
    linked(
        linked(s.push(Some(NodeView::BinaryOp { lhs, rhs, cache: None, op_type })), lhs, n),
        rhs,
        n,
    )
}

/// The graph after a new one-operand node over `arg` has been appended with
/// an empty cache and registered below its operand.
pub open spec fn with_unary(s: Slots, op_type: UnaryOpType, arg: int) -> Slots {
    let n = s.len() as int;
    linked(s.push(Some(NodeView::UnaryOp { arg, cache: None, op_type })), arg, n)
}

/// `t` is `s` with one more slot, which holds `node`. The old slots keep
/// their kind, value, operands and cache; they may only have gained
/// back-links.
pub open spec fn grown(s: Slots, t: Slots, node: NodeView) -> bool {
    &&& t.len() == s.len() + 1
    &&& t[s.len() as int] == Some(node)
    &&& forall|k: int|
        0 <= k < s.len() ==> {
            &&& shape(#[trigger] t[k]) == shape(s[k])
            &&& cache_of(t, k) == cache_of(s, k)
            &&& available(t, k) == available(s, k)
            &&& live(t, k) == live(s, k)
        }
}

/// `t` is `s` after a two-operand node over `lhs` and `rhs` was built, and
/// `handle` names the new node.
pub open spec fn built_binary(
    s: Slots,
    t: Slots,
    handle: int,
    op_type: BinaryOpType,
    lhs: int,
    rhs: int,
) -> bool {
    &&& handle == s.len()
    &&& t == with_binary(s, op_type, lhs, rhs)
    &&& grown(s, t, NodeView::BinaryOp { lhs, rhs, cache: None, op_type })
}

/// `t` is `s` after a one-operand node over `arg` was built, and `handle`
/// names the new node.
pub open spec fn built_unary(
    s: Slots,
    t: Slots,
    handle: int,
    op_type: UnaryOpType,
    arg: int,
) -> bool {
    &&& handle == s.len()
    &&& t == with_unary(s, op_type, arg)
    &&& grown(s, t, NodeView::UnaryOp { arg, cache: None, op_type })
}

/// The graph after input `i` has received `v`: the value is stored and the
/// cache of every node listed at the input is emptied. Back-links to vacant
/// slots change nothing. A handle that names no input leaves the graph as
/// it is.
pub open spec fn after_set(s: Slots, i: int, v: u32) -> Slots {
    match s[i] {
        Some(NodeView::Input { name, value, deps }) if 0 <= i < s.len() => Seq::new(
            s.len(),
            |k: int|
                if k == i {
                    Some(NodeView::Input { name, value: Some(v), deps })
                } else if deps.contains(k) {
                    with_cache(s[k], None)
                } else {
                    s[k]
                },
        ),
        _ => s,
    }
}

/// The slot holds an operator that has node `n` as an operand.
pub open spec fn uses(slot: Option<NodeView>, n: int) -> bool {
    match slot {
        Some(NodeView::BinaryOp { lhs, rhs, .. }) => lhs == n || rhs == n,
        Some(NodeView::UnaryOp { arg, .. }) => arg == n,
        _ => false,
    }
}

/// Some existing node has node `n` as an operand, and so keeps it alive.
pub open spec fn in_use(s: Slots, n: int) -> bool {
    exists|m: int| 0 <= m < s.len() && uses(#[trigger] s[m], n)
}

/// The back-links of an input that still resolve, in the order in which
/// they were registered.
pub open spec fn resolvable(s: Slots, i: int) -> Seq<int> {
    existing(s, deps_of(s, i))
}

/// The handles of a list that name existing nodes, in order.
pub open spec fn existing(s: Slots, handles: Seq<int>) -> Seq<int> {
    handles.filter(|d: int| live(s, d))
}

/// `post` is `pre` with some empty caches filled and nothing else changed.
pub open spec fn only_fills(pre: Slots, post: Slots) -> bool {
    &&& post.len() == pre.len()
    &&& forall|k: int|
        0 <= k < pre.len() ==> {
            &&& with_cache(#[trigger] post[k], None) == with_cache(pre[k], None)
            &&& cache_of(pre, k) is Some ==> post[k] == pre[k]
        }
}

/// `pre` with every slot under `n` taken from `post`: the graph as it
/// stands when an evaluation of `n` that leads from `pre` to `post` has
/// touched nothing but what lies under `n`.
pub open spec fn filled_under(pre: Slots, post: Slots, n: int) -> Slots {
    Seq::new(
        pre.len(),
        |k: int|
            if reaches(pre, n, k) {
                post[k]
            } else {
                pre[k]
            },
    )
}

/// The request by which the result of operator `k` is worked out from the
/// values that its operands hold in `s`.
pub open spec fn request_of(s: Slots, k: int) -> Operation {
    match s[k] {
        Some(NodeView::BinaryOp { lhs, rhs, op_type, .. }) => Operation::Binary {
            op: op_type,
            lhs: available(s, lhs)->0,
            rhs: available(s, rhs)->0,
        },
        Some(NodeView::UnaryOp { arg, op_type, .. }) => Operation::Unary {
            op: op_type,
            arg: available(s, arg)->0,
        },
        _ => arbitrary(),
    }
}

/// The requests that an evaluation of `n` makes to the kernel, in order,
/// when it leads from the graph `pre` to the graph `post`. A node that
/// holds a value asks for nothing. An operator without one first has its
/// left operand evaluated, then its right operand, and where both gave a
/// value it asks once, for itself, on those two values. An operand that
/// gave no value ends the evaluation.
pub open spec fn work(pre: Slots, post: Slots, n: int) -> Seq<Applied>
    decreases n,
{
    if 0 <= n < pre.len() && available(pre, n) is None {
        match pre[n] {
            Some(NodeView::BinaryOp { lhs, rhs, .. }) => if 0 <= lhs < n && 0 <= rhs < n {
                let left = work(pre, post, lhs);
                if available(post, lhs) is Some {
                    let right = work(filled_under(pre, post, lhs), post, rhs);
                    if available(post, rhs) is Some {
                        (left + right).push(Applied { node: n, request: request_of(post, n) })
                    } else {
                        left + right
                    }
                } else {
                    left
                }
            } else {
                Seq::empty()
            },
            Some(NodeView::UnaryOp { arg, .. }) => if 0 <= arg < n {
                let inner = work(pre, post, arg);
                if available(post, arg) is Some {
                    inner.push(Applied { node: n, request: request_of(post, n) })
                } else {
                    inner
                }
            } else {
                Seq::empty()
            },
            _ => Seq::empty(),
        }
    } else {
        Seq::empty()
    }
}

} // verus!
