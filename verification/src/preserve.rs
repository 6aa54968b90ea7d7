//! Each way a graph changes keeps it well formed.

use crate::frame::{
    lemma_agree_on_prefix, lemma_agree_symmetric, lemma_paths_agrees, lemma_paths_positive,
    lemma_reaches_agrees, lemma_reaches_bounds, lemma_reaches_operand_of, lemma_reaches_transitive,
    lemma_same_wiring_reaches,
};
use crate::model::{
    after_set, agree_under, available, cache_of, cache_ok, copies, deps_of, evaluates, first_unset,
    grown, in_use, is_input, is_operator, linked, live, node_ok, paths, reaches, same_wiring,
    shape, structured, uses, well_formed, with_binary, with_cache, with_unary, Arith, Slots,
};
use crate::node::NodeView;
use crate::ops::{BinaryOpType, Operation, UnaryOpType};
use vstd::prelude::*;

verus! {

/// `t` keeps every slot of `s` in shape and in liveness, and may hold more.
pub open spec fn extends(s: Slots, t: Slots) -> bool {
    &&& s.len() <= t.len()
    &&& forall|k: int| 0 <= k < s.len() ==> shape(#[trigger] s[k]) == shape(t[k])
}

/// In an extension, the old nodes reach what they reached before.
pub proof fn lemma_extends_reaches(s: Slots, t: Slots, n: int, m: int)
    requires
        extends(s, t),
        0 <= n < s.len(),
    ensures
        reaches(s, n, m) == reaches(t, n, m),
        paths(s, n, m) == paths(t, n, m),
{
    assert forall|k: int| 0 <= k <= n implies shape(#[trigger] s[k]) == shape(t[k]) by {}
    lemma_agree_on_prefix(s, t, n);
    lemma_reaches_agrees(s, t, n, m);
    lemma_paths_agrees(s, t, n, m);
}

/// Appending a constant or an input without back-links keeps a graph well formed.
pub proof fn lemma_leaf_keeps_invariant(s: Slots, rel: Arith, leaf: NodeView)
    requires
        well_formed(s, rel),
        leaf is Constant || (leaf matches NodeView::Input { deps, .. } && deps.len() == 0),
    ensures
        well_formed(s.push(Some(leaf)), rel),
{
    let t = s.push(Some(leaf));
    assert(extends(s, t));
    assert forall|n: int| 0 <= n < t.len() implies #[trigger] node_ok(t, n) by {
        if n < s.len() {
            assert(node_ok(s, n));
        }
    }
    assert forall|m: int, i: int|
        is_operator(t, m) && is_input(t, i) && #[trigger] reaches(t, m, i) implies deps_of(
        t,
        i,
    ).contains(m) by {
        lemma_extends_reaches(s, t, m, i);
        lemma_reaches_bounds(t, m, i);
        assert(reaches(s, m, i));
    }
    assert forall|i: int, k: int|
        is_input(t, i) && 0 <= k < deps_of(t, i).len() && live(
            t,
            #[trigger] deps_of(t, i)[k],
        ) implies is_operator(t, deps_of(t, i)[k]) && reaches(t, deps_of(t, i)[k], i) by {
        let d = deps_of(s, i)[k];
        assert(node_ok(s, i));
        assert(live(s, d));
        lemma_extends_reaches(s, t, d, i);
    }
    assert forall|m: int| 0 <= m < t.len() implies #[trigger] cache_ok(t, rel, m) by {
        if m < s.len() {
            assert(cache_ok(s, rel, m));
            assert(node_ok(s, m));
        }
    }
}

/// Registering a dependent changes back-links only.
pub proof fn lemma_linked_extends(s: Slots, from: int, dep: int)
    ensures
        linked(s, from, dep).len() == s.len(),
        extends(s, linked(s, from, dep)),
        extends(linked(s, from, dep), s),
        forall|k: int| 0 <= k < s.len() ==> live(linked(s, from, dep), k) == live(s, k),
        forall|k: int|
            0 <= k < s.len() ==> #[trigger] available(linked(s, from, dep), k) == available(s, k),
{
}

/// Registering a later node below an earlier one keeps the structure sound.
pub proof fn lemma_linked_structured(s: Slots, from: int, dep: int)
    requires
        structured(s),
        0 <= from < dep < s.len(),
    ensures
        structured(linked(s, from, dep)),
{
    let t = linked(s, from, dep);
    assert forall|n: int| 0 <= n < t.len() implies #[trigger] node_ok(t, n) by {
        assert(node_ok(s, n));
        match s[n] {
            Some(NodeView::Input { name, value, deps }) => {
                let added = copies(dep, paths(s, from, n));
                assert(t[n] == Some(NodeView::Input { name, value, deps: deps + added }));
                if added.len() > 0 {
                    lemma_paths_positive(s, from, n);
                    lemma_reaches_bounds(s, from, n);
                }
                assert forall|k: int| 0 <= k < (deps + added).len() implies n < #[trigger] (deps
                    + added)[k] < t.len() by {
                    if k < deps.len() {
                        assert((deps + added)[k] == deps[k]);
                    } else {
                        assert((deps + added)[k] == added[k - deps.len()]);
                    }
                }
            },
            _ => {},
        }
    }
}

/// Registering at an input itself appends one back-link to that input and
/// touches nothing else.
pub proof fn lemma_linked_at_input(s: Slots, from: int, dep: int)
    requires
        is_input(s, from),
    ensures
        s[from] matches Some(NodeView::Input { name, value, deps }) && linked(s, from, dep)
            == s.update(from, Some(NodeView::Input { name, value, deps: deps.push(dep) })),
{
    let t = linked(s, from, dep);
    match s[from] {
        Some(NodeView::Input { name, value, deps }) => {
            let u = s.update(from, Some(NodeView::Input { name, value, deps: deps.push(dep) }));
            assert forall|k: int| 0 <= k < s.len() implies t[k] == u[k] by {
                match s[k] {
                    Some(NodeView::Input { name: name_k, value: value_k, deps: deps_k }) => {
                        if k == from {
                            assert(deps + copies(dep, 1) =~= deps.push(dep));
                        } else {
                            assert(paths(s, from, k) == 0);
                            assert(deps_k + copies(dep, 0) =~= deps_k);
                        }
                    },
                    _ => {},
                }
            }
            assert(t =~= u);
        },
        _ => {},
    }
}

/// Registering nothing leaves the graph as it is.
pub proof fn lemma_linked_nowhere(s: Slots, from: int, dep: int)
    requires
        forall|k: int| is_input(s, k) ==> paths(s, from, k) == 0,
    ensures
        linked(s, from, dep) == s,
{
    let t = linked(s, from, dep);
    assert forall|k: int| 0 <= k < s.len() implies t[k] == s[k] by {
        match s[k] {
            Some(NodeView::Input { name, value, deps }) => {
                assert(is_input(s, k));
                assert(deps + copies(dep, 0) =~= deps);
            },
            _ => {},
        }
    }
    assert(t =~= s);
}

/// Registering below both operands of a two-operand node, left then right,
/// is registering below the node.
pub proof fn lemma_linked_binary(s: Slots, from: int, dep: int)
    requires
        0 <= from < s.len(),
        node_ok(s, from),
        s[from] matches Some(NodeView::BinaryOp { .. }),
    ensures
        s[from] matches Some(NodeView::BinaryOp { lhs, rhs, .. }) && linked(
            linked(s, lhs, dep),
            rhs,
            dep,
        ) == linked(s, from, dep),
{
    match s[from] {
        Some(NodeView::BinaryOp { lhs, rhs, .. }) => {
            let s1 = linked(s, lhs, dep);
            let s2 = linked(s1, rhs, dep);
            let t = linked(s, from, dep);
            lemma_linked_extends(s, lhs, dep);
            assert forall|k: int| 0 <= k < s.len() implies s2[k] == t[k] by {
                match s[k] {
                    Some(NodeView::Input { name, value, deps }) => {
                        lemma_extends_reaches(s, s1, rhs, k);
                        let below_left = paths(s, lhs, k);
                        let below_right = paths(s, rhs, k);
                        assert(paths(s, from, k) == below_left + below_right);
                        assert((deps + copies(dep, below_left)) + copies(dep, below_right)
                            =~= deps + copies(dep, below_left + below_right));
                    },
                    _ => {},
                }
            }
            assert(s2 =~= t);
        },
        _ => {},
    }
}

/// Registering below the operand of a one-operand node is registering below
/// the node.
pub proof fn lemma_linked_unary(s: Slots, from: int, dep: int)
    requires
        0 <= from < s.len(),
        node_ok(s, from),
        s[from] matches Some(NodeView::UnaryOp { .. }),
    ensures
        s[from] matches Some(NodeView::UnaryOp { arg, .. }) && linked(s, arg, dep) == linked(
            s,
            from,
            dep,
        ),
{
    match s[from] {
        Some(NodeView::UnaryOp { arg, .. }) => {
            let s1 = linked(s, arg, dep);
            let t = linked(s, from, dep);
            assert forall|k: int| 0 <= k < s.len() implies s1[k] == t[k] by {
                match s[k] {
                    Some(NodeView::Input { name, value, deps }) => {
                        assert(paths(s, from, k) == paths(s, arg, k));
                    },
                    _ => {},
                }
            }
            assert(s1 =~= t);
        },
        _ => {},
    }
}

/// What a slot of the graph holds after a new operator `node` over the given
/// operands has been appended and registered.
proof fn lemma_operator_slots(s: Slots, node: NodeView, t: Slots, k: int)
    requires
        structured(s),
        0 <= k < s.len(),
        match node {
            NodeView::BinaryOp { lhs, rhs, cache, op_type } => live(s, lhs) && live(s, rhs) && t
                == with_binary(s, op_type, lhs, rhs),
            NodeView::UnaryOp { arg, cache, op_type } => live(s, arg) && t == with_unary(
                s,
                op_type,
                arg,
            ),
            _ => false,
        },
    ensures
        t.len() == s.len() + 1,
        shape(t[k]) == shape(s[k]),
        live(t, k) == live(s, k),
        cache_of(t, k) == cache_of(s, k),
        available(t, k) == available(s, k),
        is_input(s, k) ==> deps_of(t, k) == deps_of(s, k) + copies(
            s.len() as int,
            operand_paths(s, node, k),
        ),
{
    let n = s.len() as int;
    match node {
        NodeView::BinaryOp { lhs, rhs, cache, op_type } => {
            let p = s.push(Some(NodeView::BinaryOp { lhs, rhs, cache: None, op_type }));
            let q = linked(p, lhs, n);
            assert(extends(s, p));
            lemma_linked_extends(p, lhs, n);
            lemma_linked_extends(q, rhs, n);
            lemma_extends_reaches(s, p, lhs, k);
            lemma_extends_reaches(s, p, rhs, k);
            lemma_extends_reaches(p, q, rhs, k);
            match s[k] {
                Some(NodeView::Input { name, value, deps }) => {
                    let below_left = paths(s, lhs, k);
                    let below_right = paths(s, rhs, k);
                    assert((deps + copies(n, below_left)) + copies(n, below_right) =~= deps
                        + copies(n, below_left + below_right));
                },
                _ => {},
            }
        },
        NodeView::UnaryOp { arg, cache, op_type } => {
            let p = s.push(Some(NodeView::UnaryOp { arg, cache: None, op_type }));
            assert(extends(s, p));
            lemma_linked_extends(p, arg, n);
            lemma_extends_reaches(s, p, arg, k);
        },
        _ => {},
    }
}

/// The number of forward paths from the operands of `node` down to `k`.
pub open spec fn operand_paths(s: Slots, node: NodeView, k: int) -> nat {
    match node {
        NodeView::BinaryOp { lhs, rhs, .. } => paths(s, lhs, k) + paths(s, rhs, k),
        NodeView::UnaryOp { arg, .. } => paths(s, arg, k),
        _ => 0,
    }
}

/// Appending an operator over existing operands and registering it keeps a
/// graph well formed.
proof fn lemma_operator_keeps_invariant(s: Slots, rel: Arith, node: NodeView, t: Slots)
    requires
        well_formed(s, rel),
        match node {
            NodeView::BinaryOp { lhs, rhs, cache, op_type } => live(s, lhs) && live(s, rhs) && t
                == with_binary(s, op_type, lhs, rhs),
            NodeView::UnaryOp { arg, cache, op_type } => live(s, arg) && t == with_unary(
                s,
                op_type,
                arg,
            ),
            _ => false,
        },
    ensures
        well_formed(t, rel),
        t.len() == s.len() + 1,
        t[s.len() as int] == with_cache(Some(node), None),
        forall|k: int|
            0 <= k < s.len() ==> {
                &&& shape(#[trigger] t[k]) == shape(s[k])
                &&& cache_of(t, k) == cache_of(s, k)
                &&& available(t, k) == available(s, k)
                &&& live(t, k) == live(s, k)
            },
{
    let n = s.len() as int;
    assert(t.len() == n + 1 && t[n] == with_cache(Some(node), None)) by {
        match node {
            NodeView::BinaryOp { lhs, rhs, cache, op_type } => {
                let p = s.push(Some(NodeView::BinaryOp { lhs, rhs, cache: None, op_type }));
                lemma_linked_extends(p, lhs, n);
                lemma_linked_extends(linked(p, lhs, n), rhs, n);
            },
            NodeView::UnaryOp { arg, cache, op_type } => {
                let p = s.push(Some(NodeView::UnaryOp { arg, cache: None, op_type }));
                lemma_linked_extends(p, arg, n);
            },
            _ => {},
        }
    }
    assert forall|k: int| 0 <= k < n implies {
        &&& shape(#[trigger] t[k]) == shape(s[k])
        &&& cache_of(t, k) == cache_of(s, k)
        &&& available(t, k) == available(s, k)
        &&& live(t, k) == live(s, k)
    } by {
        lemma_operator_slots(s, node, t, k);
    }
    assert forall|k: int| 0 <= k < n implies shape(#[trigger] s[k]) == shape(t[k]) by {
        assert(shape(t[k]) == shape(s[k]));
    }
    assert(extends(s, t));
    assert forall|k: int| 0 <= k < t.len() implies #[trigger] node_ok(t, k) by {
        if k < n {
            lemma_operator_slots(s, node, t, k);
            assert(node_ok(s, k));
            match s[k] {
                Some(NodeView::Input { name, value, deps }) => {
                    let added = copies(n, operand_paths(s, node, k));
                    assert(deps_of(t, k) == deps + added);
                    assert forall|j: int| 0 <= j < (deps + added).len() implies k < #[trigger] (
                    deps + added)[j] < t.len() by {
                        if j < deps.len() {
                            assert((deps + added)[j] == deps[j]);
                        } else {
                            assert((deps + added)[j] == n);
                        }
                    }
                },
                Some(NodeView::BinaryOp { lhs, rhs, .. }) => {
                    lemma_operator_slots(s, node, t, lhs);
                    lemma_operator_slots(s, node, t, rhs);
                },
                Some(NodeView::UnaryOp { arg, .. }) => {
                    lemma_operator_slots(s, node, t, arg);
                },
                _ => {},
            }
        } else {
            match node {
                NodeView::BinaryOp { lhs, rhs, .. } => {
                    lemma_operator_slots(s, node, t, lhs);
                    lemma_operator_slots(s, node, t, rhs);
                },
                NodeView::UnaryOp { arg, .. } => {
                    lemma_operator_slots(s, node, t, arg);
                },
                _ => {},
            }
        }
    }
    assert forall|m: int, i: int|
        is_operator(t, m) && is_input(t, i) && #[trigger] reaches(t, m, i) implies deps_of(
        t,
        i,
    ).contains(m) by {
        lemma_reaches_bounds(t, m, i);
        lemma_operator_slots(s, node, t, i);
        let added = copies(n, operand_paths(s, node, i));
        assert(deps_of(t, i) == deps_of(s, i) + added);
        if m < n {
            lemma_operator_slots(s, node, t, m);
            lemma_extends_reaches(s, t, m, i);
            assert(reaches(s, m, i));
            let j = choose|j: int| 0 <= j < deps_of(s, i).len() && deps_of(s, i)[j] == m;
            assert((deps_of(s, i) + added)[j] == m);
        } else {
            match node {
                NodeView::BinaryOp { lhs, rhs, .. } => {
                    lemma_extends_reaches(s, t, lhs, i);
                    lemma_extends_reaches(s, t, rhs, i);
                    lemma_paths_positive(s, lhs, i);
                    lemma_paths_positive(s, rhs, i);
                },
                NodeView::UnaryOp { arg, .. } => {
                    lemma_extends_reaches(s, t, arg, i);
                    lemma_paths_positive(s, arg, i);
                },
                _ => {},
            }
            assert(added.len() > 0);
            assert((deps_of(s, i) + added)[deps_of(s, i).len() as int] == n);
        }
    }
    assert forall|i: int, k: int|
        is_input(t, i) && 0 <= k < deps_of(t, i).len() && live(
            t,
            #[trigger] deps_of(t, i)[k],
        ) implies is_operator(t, deps_of(t, i)[k]) && reaches(t, deps_of(t, i)[k], i) by {
        lemma_operator_slots(s, node, t, i);
        let added = copies(n, operand_paths(s, node, i));
        assert(deps_of(t, i) == deps_of(s, i) + added);
        assert(node_ok(s, i));
        if k < deps_of(s, i).len() {
            let d = deps_of(s, i)[k];
            assert((deps_of(s, i) + added)[k] == d);
            lemma_operator_slots(s, node, t, d);
            lemma_extends_reaches(s, t, d, i);
        } else {
            assert((deps_of(s, i) + added)[k] == n);
            match node {
                NodeView::BinaryOp { lhs, rhs, .. } => {
                    lemma_extends_reaches(s, t, lhs, i);
                    lemma_extends_reaches(s, t, rhs, i);
                    lemma_paths_positive(s, lhs, i);
                    lemma_paths_positive(s, rhs, i);
                },
                NodeView::UnaryOp { arg, .. } => {
                    lemma_extends_reaches(s, t, arg, i);
                    lemma_paths_positive(s, arg, i);
                },
                _ => {},
            }
        }
    }
    assert forall|m: int| 0 <= m < t.len() implies #[trigger] cache_ok(t, rel, m) by {
        if m < n {
            lemma_operator_slots(s, node, t, m);
            assert(cache_ok(s, rel, m));
            assert(node_ok(s, m));
            match s[m] {
                Some(NodeView::BinaryOp { lhs, rhs, .. }) => {
                    lemma_operator_slots(s, node, t, lhs);
                    lemma_operator_slots(s, node, t, rhs);
                },
                Some(NodeView::UnaryOp { arg, .. }) => {
                    lemma_operator_slots(s, node, t, arg);
                },
                _ => {},
            }
        }
    }
}

/// Appending a two-operand node over existing operands keeps a graph well formed.
pub proof fn lemma_binary_keeps_invariant(
    s: Slots,
    rel: Arith,
    op_type: BinaryOpType,
    lhs: int,
    rhs: int,
)
    requires
        well_formed(s, rel),
        live(s, lhs),
        live(s, rhs),
    ensures
        well_formed(with_binary(s, op_type, lhs, rhs), rel),
        grown(
            s,
            with_binary(s, op_type, lhs, rhs),
            NodeView::BinaryOp { lhs, rhs, cache: None, op_type },
        ),
{
    lemma_operator_keeps_invariant(
        s,
        rel,
        NodeView::BinaryOp { lhs, rhs, cache: None, op_type },
        with_binary(s, op_type, lhs, rhs),
    );
}

/// Appending a one-operand node over an existing operand keeps a graph well formed.
pub proof fn lemma_unary_keeps_invariant(s: Slots, rel: Arith, op_type: UnaryOpType, arg: int)
    requires
        well_formed(s, rel),
        live(s, arg),
    ensures
        well_formed(with_unary(s, op_type, arg), rel),
        grown(s, with_unary(s, op_type, arg), NodeView::UnaryOp { arg, cache: None, op_type }),
{
    lemma_operator_keeps_invariant(
        s,
        rel,
        NodeView::UnaryOp { arg, cache: None, op_type },
        with_unary(s, op_type, arg),
    );
}

/// Appending an operator over existing operands keeps the structure sound.
pub proof fn lemma_pushed_operator_structured(s: Slots, t: Slots)
    requires
        structured(s),
        t.len() == s.len() + 1,
        forall|k: int| 0 <= k < s.len() ==> t[k] == s[k],
        match t[s.len() as int] {
            Some(NodeView::BinaryOp { lhs, rhs, .. }) => live(s, lhs) && live(s, rhs),
            Some(NodeView::UnaryOp { arg, .. }) => live(s, arg),
            _ => false,
        },
    ensures
        structured(t),
{
    assert forall|n: int| 0 <= n < t.len() implies #[trigger] node_ok(t, n) by {
        if n < s.len() {
            assert(node_ok(s, n));
        }
    }
}

/// Setting an input keeps the forward edges, the back-links and the set of
/// existing nodes.
pub proof fn lemma_after_set_keeps_wiring(s: Slots, i: int, v: u32)
    ensures
        same_wiring(s, after_set(s, i, v)),
        forall|k: int|
            0 <= k < s.len() ==> deps_of(after_set(s, i, v), k) == #[trigger] deps_of(s, k),
        forall|k: int| 0 <= k < s.len() ==> live(after_set(s, i, v), k) == #[trigger] live(s, k),
{
}

/// Setting an input keeps a graph well formed.
pub proof fn lemma_set_keeps_invariant(s: Slots, rel: Arith, i: int, v: u32)
    requires
        well_formed(s, rel),
    ensures
        well_formed(after_set(s, i, v), rel),
{
    let t = after_set(s, i, v);
    if is_input(s, i) {
        let deps = deps_of(s, i);
        lemma_after_set_keeps_wiring(s, i, v);
        assert forall|n: int| 0 <= n < t.len() implies #[trigger] node_ok(t, n) by {
            assert(node_ok(s, n));
            assert(deps_of(t, n) == deps_of(s, n));
            match s[n] {
                Some(NodeView::BinaryOp { lhs, rhs, .. }) => {
                    assert(live(t, lhs) == live(s, lhs));
                    assert(live(t, rhs) == live(s, rhs));
                },
                Some(NodeView::UnaryOp { arg, .. }) => {
                    assert(live(t, arg) == live(s, arg));
                },
                _ => {},
            }
        }
        assert forall|m: int, j: int|
            is_operator(t, m) && is_input(t, j) && #[trigger] reaches(t, m, j) implies deps_of(
            t,
            j,
        ).contains(m) by {
            lemma_same_wiring_reaches(s, t, m, j);
            assert(reaches(s, m, j));
            assert(deps_of(t, j) == deps_of(s, j));
        }
        assert forall|j: int, k: int|
            is_input(t, j) && 0 <= k < deps_of(t, j).len() && live(
                t,
                #[trigger] deps_of(t, j)[k],
            ) implies is_operator(t, deps_of(t, j)[k]) && reaches(t, deps_of(t, j)[k], j) by {
            assert(deps_of(t, j) == deps_of(s, j));
            let d = deps_of(s, j)[k];
            assert(node_ok(s, j));
            assert(live(t, d) == live(s, d));
            lemma_same_wiring_reaches(s, t, d, j);
        }
        assert forall|m: int| 0 <= m < t.len() implies #[trigger] cache_ok(t, rel, m) by {
            if cache_of(t, m) is Some {
                assert(m != i);
                assert(!deps.contains(m));
                assert(t[m] == s[m]);
                assert(cache_ok(s, rel, m));
                assert(node_ok(s, m));
                assert(is_operator(s, m));
                assert(!reaches(s, m, i));
                match s[m] {
                    Some(NodeView::BinaryOp { lhs, rhs, .. }) => {
                        lemma_set_spares_operand(s, rel, i, v, m, lhs);
                        lemma_set_spares_operand(s, rel, i, v, m, rhs);
                    },
                    Some(NodeView::UnaryOp { arg, .. }) => {
                        lemma_set_spares_operand(s, rel, i, v, m, arg);
                    },
                    _ => {},
                }
            }
        }
    }
}

/// Setting input `i` leaves every operand of a node that does not reach `i`
/// as it was.
proof fn lemma_set_spares_operand(s: Slots, rel: Arith, i: int, v: u32, m: int, child: int)
    requires
        well_formed(s, rel),
        is_input(s, i),
        is_operator(s, m),
        !reaches(s, m, i),
        0 <= child < m,
        uses(s[m], child),
    ensures
        after_set(s, i, v)[child] == s[child],
{
    let deps = deps_of(s, i);
    assert(node_ok(s, m));
    assert(reaches(s, m, m));
    lemma_reaches_operand_of(s, m, m, child);
    if child == i {
        assert(reaches(s, m, i));
    } else if deps.contains(child) {
        let k = choose|k: int| 0 <= k < deps.len() && deps[k] == child;
        assert(live(s, deps_of(s, i)[k]));
        assert(reaches(s, child, i));
        lemma_reaches_transitive(s, m, child, i);
    }
}

/// Filling the empty cache of an operator with a result that the kernel may
/// give on the values its operands hold keeps a graph well formed.
pub proof fn lemma_store_keeps_invariant(s: Slots, rel: Arith, n: int, v: u32)
    requires
        well_formed(s, rel),
        is_operator(s, n),
        cache_of(s, n) is None,
        cache_ok(s.update(n, with_cache(s[n], Some(v))), rel, n),
    ensures
        well_formed(s.update(n, with_cache(s[n], Some(v))), rel),
{
    let t = s.update(n, with_cache(s[n], Some(v)));
    assert(same_wiring(s, t));
    assert forall|k: int| 0 <= k < t.len() implies #[trigger] node_ok(t, k) by {
        assert(node_ok(s, k));
    }
    assert forall|m: int, j: int|
        is_operator(t, m) && is_input(t, j) && #[trigger] reaches(t, m, j) implies deps_of(
        t,
        j,
    ).contains(m) by {
        lemma_same_wiring_reaches(s, t, m, j);
        assert(reaches(s, m, j));
    }
    assert forall|j: int, k: int|
        is_input(t, j) && 0 <= k < deps_of(t, j).len() && live(
            t,
            #[trigger] deps_of(t, j)[k],
        ) implies is_operator(t, deps_of(t, j)[k]) && reaches(t, deps_of(t, j)[k], j) by {
        let d = deps_of(s, j)[k];
        assert(node_ok(s, j));
        assert(live(s, d));
        lemma_same_wiring_reaches(s, t, d, j);
    }
    assert forall|m: int| 0 <= m < t.len() implies #[trigger] cache_ok(t, rel, m) by {
        if m != n {
            assert(cache_ok(s, rel, m));
        }
    }
}

/// A value that a node of a well-formed graph holds is one that evaluating
/// the node from scratch can produce, and no input under the node is unset.
pub proof fn lemma_agrees_on_available(s: Slots, rel: Arith, n: int)
    requires
        well_formed(s, rel),
        available(s, n) is Some,
    ensures
        evaluates(s, rel, n, available(s, n)->0),
        first_unset(s, n) is None,
    decreases n,
{
    assert(cache_ok(s, rel, n));
    assert(node_ok(s, n));
    match s[n] {
        Some(NodeView::BinaryOp { lhs, rhs, op_type, .. }) => {
            lemma_agrees_on_available(s, rel, lhs);
            lemma_agrees_on_available(s, rel, rhs);
            let a = available(s, lhs)->0;
            let b = available(s, rhs)->0;
            assert(rel(Operation::Binary { op: op_type, lhs: a, rhs: b }, available(s, n)->0));
        },
        Some(NodeView::UnaryOp { arg, op_type, .. }) => {
            lemma_agrees_on_available(s, rel, arg);
            let a = available(s, arg)->0;
            assert(rel(Operation::Unary { op: op_type, arg: a }, available(s, n)->0));
        },
        _ => {},
    }
}

/// A node that no operator uses is reached by no node but itself.
pub proof fn lemma_unused_is_unreached(s: Slots, n: int, m: int)
    requires
        !in_use(s, n),
        m != n,
    ensures
        !reaches(s, m, n),
    decreases m,
{
    if 0 <= m < s.len() {
        assert(!uses(s[m], n));
        match s[m] {
            Some(NodeView::BinaryOp { lhs, rhs, .. }) => {
                if 0 <= lhs < m {
                    lemma_unused_is_unreached(s, n, lhs);
                }
                if 0 <= rhs < m {
                    lemma_unused_is_unreached(s, n, rhs);
                }
            },
            Some(NodeView::UnaryOp { arg, .. }) => {
                if 0 <= arg < m {
                    lemma_unused_is_unreached(s, n, arg);
                }
            },
            _ => {},
        }
    }
}

/// Vacating an unused slot changes nothing under any other node.
proof fn lemma_release_agrees(s: Slots, n: int, m: int)
    requires
        0 <= n < s.len(),
        !in_use(s, n),
        0 <= m < s.len(),
        m != n,
    ensures
        agree_under(s, s.update(n, None), m),
        agree_under(s.update(n, None), s, m),
{
    let t = s.update(n, None);
    assert forall|k: int| #[trigger] reaches(s, m, k) implies 0 <= k < s.len() && k < t.len()
        && shape(s[k]) == shape(t[k]) by {
        lemma_reaches_bounds(s, m, k);
        lemma_unused_is_unreached(s, n, m);
    }
    lemma_agree_symmetric(s, t, m);
}

/// Releasing an existing node that no operator uses keeps a graph well formed.
pub proof fn lemma_release_keeps_invariant(s: Slots, rel: Arith, n: int)
    requires
        well_formed(s, rel),
        live(s, n),
        !in_use(s, n),
    ensures
        well_formed(s.update(n, None), rel),
{
    let t = s.update(n, None);
    assert forall|k: int| 0 <= k < t.len() implies #[trigger] node_ok(t, k) by {
        assert(node_ok(s, k));
        assert(!uses(s[k], n));
    }
    assert forall|m: int, i: int|
        is_operator(t, m) && is_input(t, i) && #[trigger] reaches(t, m, i) implies deps_of(
        t,
        i,
    ).contains(m) by {
        lemma_release_agrees(s, n, m);
        lemma_reaches_agrees(s, t, m, i);
        assert(reaches(s, m, i));
    }
    assert forall|i: int, k: int|
        is_input(t, i) && 0 <= k < deps_of(t, i).len() && live(
            t,
            #[trigger] deps_of(t, i)[k],
        ) implies is_operator(t, deps_of(t, i)[k]) && reaches(t, deps_of(t, i)[k], i) by {
        let d = deps_of(s, i)[k];
        assert(live(s, d));
        lemma_release_agrees(s, n, d);
        lemma_reaches_agrees(s, t, d, i);
    }
    assert forall|m: int| 0 <= m < t.len() implies #[trigger] cache_ok(t, rel, m) by {
        assert(cache_ok(s, rel, m));
        assert(!uses(s[m], n));
    }
}

/// Under a node that holds a value every node holds a value.
pub proof fn lemma_values_below(s: Slots, rel: Arith, n: int, k: int)
    requires
        well_formed(s, rel),
        available(s, n) is Some,
        reaches(s, n, k),
    ensures
        available(s, k) is Some,
    decreases n,
{
    if n != k {
        assert(cache_ok(s, rel, n));
        match s[n] {
            Some(NodeView::BinaryOp { lhs, rhs, .. }) => {
                if 0 <= lhs < n && reaches(s, lhs, k) {
                    lemma_values_below(s, rel, lhs, k);
                } else {
                    lemma_values_below(s, rel, rhs, k);
                }
            },
            Some(NodeView::UnaryOp { arg, .. }) => {
                lemma_values_below(s, rel, arg, k);
            },
            _ => {},
        }
    }
}

} // verus!
