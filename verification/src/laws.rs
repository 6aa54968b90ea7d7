//! What holds of every graph: the laws that relate building, setting and
//! evaluating, proved from the contracts of the operations.

use crate::eval::{computed, UnsetInput};
use crate::frame::{
    lemma_agree_on_prefix, lemma_evaluates_agrees, lemma_first_unset_agrees, lemma_reaches_bounds,
    lemma_reaches_through_operand, lemma_same_wiring_reaches,
};
use crate::model::{
    after_set, agree_under, available, cache_of, deps_of, evaluates, filled_under, first_unset,
    grown, in_use, is_input, is_operator, live, only_fills, reaches, request_of, shape,
    well_formed, wiring, with_cache, work, Arith, Slots,
};
use crate::node::NodeView;
use crate::ops::{Applied, Operation};
use crate::requests::{lemma_work_covers, lemma_work_once, lemma_work_only_missing};
use crate::preserve::{
    lemma_after_set_keeps_wiring, lemma_agrees_on_available, lemma_set_keeps_invariant,
    lemma_unused_is_unreached, lemma_values_below,
};
use vstd::prelude::*;

verus! {

/// The kernel gives one result for each request.
pub open spec fn functional(rel: Arith) -> bool {
    forall|o: Operation, one: u32, other: u32|
        #![trigger rel(o, one), rel(o, other)]
        rel(o, one) && rel(o, other) ==> one == other
}

/// The graph `s` with the value of input `x` replaced by `v` and nothing
/// else touched.
pub open spec fn with_input(s: Slots, x: int, v: u32) -> Slots {
    match s[x] {
        Some(NodeView::Input { name, value, deps }) => s.update(
            x,
            Some(NodeView::Input { name, value: Some(v), deps }),
        ),
        _ => s,
    }
}

/// Two graphs that differ in caches and back-links only agree under every node.
proof fn lemma_same_shape_agrees(s: Slots, t: Slots, n: int)
    requires
        s.len() == t.len(),
        forall|k: int| 0 <= k < s.len() ==> shape(#[trigger] s[k]) == shape(t[k]),
        0 <= n < s.len(),
    ensures
        agree_under(s, t, n),
{
    assert forall|k: int| #[trigger] reaches(s, n, k) implies 0 <= k < s.len() && k < t.len()
        && shape(s[k]) == shape(t[k]) by {
        lemma_reaches_bounds(s, n, k);
    }
}

/// Evaluating a node twice in a row, with nothing set in between, gives the
/// same outcome both times; after a success the second evaluation finds the
/// value in place, leaves the graph exactly as it was and asks the kernel
/// for nothing.
pub proof fn law_compute_is_idempotent(
    s0: Slots,
    rel: Arith,
    node: int,
    s1: Slots,
    first: Result<u32, UnsetInput>,
    s2: Slots,
    second: Result<u32, UnsetInput>,
)
    requires
        well_formed(s0, rel),
        live(s0, node),
        computed(s0, rel, node, s1, first),
        computed(s1, rel, node, s2, second),
    ensures
        match (first, second) {
            (Ok(v), Ok(w)) => v == w && s2 == s1 && work(s1, s2, node) == Seq::<Applied>::empty(),
            (Err(e), Err(f)) => e.node == f.node && e.name@ == f.name@,
            _ => false,
        },
{
    assert forall|k: int| 0 <= k < s0.len() implies shape(#[trigger] s0[k]) == shape(s1[k]) by {
        assert(with_cache(s1[k], None) == with_cache(s0[k], None));
    }
    lemma_same_shape_agrees(s0, s1, node);
    lemma_first_unset_agrees(s0, s1, node);
}

/// Once an input is set, no node that depends on it still holds a result:
/// each of them is worked out again by the next evaluation that needs it.
pub proof fn law_set_invalidates_dependents(s: Slots, rel: Arith, x: int, v: u32, m: int)
    requires
        well_formed(s, rel),
        is_input(s, x),
        is_operator(s, m),
        reaches(s, m, x),
    ensures
        cache_of(after_set(s, x, v), m) is None,
        available(after_set(s, x, v), x) == Some(v),
{
    assert(deps_of(s, x).contains(m));
}

/// An evaluation that follows a set returns a value that evaluating the
/// whole expression from scratch can produce on the new value of that input
/// and the unchanged values of all the others.
pub proof fn law_compute_after_set_is_fresh(
    s: Slots,
    rel: Arith,
    x: int,
    v: u32,
    node: int,
    post: Slots,
    res: Result<u32, UnsetInput>,
)
    requires
        well_formed(s, rel),
        is_input(s, x),
        live(s, node),
        computed(after_set(s, x, v), rel, node, post, res),
    ensures
        well_formed(after_set(s, x, v), rel),
        res matches Ok(r) ==> evaluates(with_input(s, x, v), rel, node, r),
        res is Ok <==> first_unset(with_input(s, x, v), node) is None,
{
    let t = after_set(s, x, v);
    let u = with_input(s, x, v);
    lemma_set_keeps_invariant(s, rel, x, v);
    lemma_same_shape_agrees(t, u, node);
    lemma_first_unset_agrees(t, u, node);
    match res {
        Ok(r) => {
            lemma_evaluates_agrees(t, u, rel, node, r);
        },
        Err(e) => {},
    }
}

/// Setting an input leaves every node that does not depend on it exactly as
/// it was, cache included.
pub proof fn law_set_spares_unrelated(s: Slots, rel: Arith, x: int, v: u32, m: int)
    requires
        well_formed(s, rel),
        is_input(s, x),
        live(s, m),
        !reaches(s, m, x),
    ensures
        after_set(s, x, v)[m] == s[m],
{
    let deps = deps_of(s, x);
    if deps.contains(m) {
        let k = choose|k: int| 0 <= k < deps.len() && deps[k] == m;
        assert(live(s, deps_of(s, x)[k]));
    }
}

/// A two-operand node over two leaves that hold `a` and `b`, constants or
/// inputs with a value, evaluates to exactly the results that the kernel may
/// give for that operator on `a` and `b`.
pub proof fn law_binary_applies_kernel(s: Slots, rel: Arith, n: int, a: u32, b: u32, v: u32)
    requires
        0 <= n < s.len(),
        s[n] matches Some(NodeView::BinaryOp { lhs, rhs, .. }) && 0 <= lhs < n && 0 <= rhs < n
            && available(s, lhs) == Some(a) && !is_operator(s, lhs) && available(s, rhs) == Some(
            b,
        ) && !is_operator(s, rhs),
    ensures
        s[n] matches Some(NodeView::BinaryOp { op_type, .. }) && (evaluates(s, rel, n, v) <==> rel(
            Operation::Binary { op: op_type, lhs: a, rhs: b },
            v,
        )),
{
    match s[n] {
        Some(NodeView::BinaryOp { lhs, rhs, op_type, .. }) => {
            assert(evaluates(s, rel, lhs, a));
            assert(evaluates(s, rel, rhs, b));
            if evaluates(s, rel, n, v) {
                let (a2, b2) = choose|a2: u32, b2: u32|
                    evaluates(s, rel, lhs, a2) && evaluates(s, rel, rhs, b2) && #[trigger] rel(
                        Operation::Binary { op: op_type, lhs: a2, rhs: b2 },
                        v,
                    );
                assert(a2 == a && b2 == b);
            }
        },
        _ => {},
    }
}

/// A one-operand node over a leaf that holds `a`, a constant or an input
/// with a value, evaluates to exactly the results that the kernel may give
/// for that operator on `a`.
pub proof fn law_unary_applies_kernel(s: Slots, rel: Arith, n: int, a: u32, v: u32)
    requires
        0 <= n < s.len(),
        s[n] matches Some(NodeView::UnaryOp { arg, .. }) && 0 <= arg < n && available(s, arg)
            == Some(a) && !is_operator(s, arg),
    ensures
        s[n] matches Some(NodeView::UnaryOp { op_type, .. }) && (evaluates(s, rel, n, v) <==> rel(
            Operation::Unary { op: op_type, arg: a },
            v,
        )),
{
    match s[n] {
        Some(NodeView::UnaryOp { arg, op_type, .. }) => {
            assert(evaluates(s, rel, arg, a));
            if evaluates(s, rel, n, v) {
                let a2 = choose|a2: u32|
                    evaluates(s, rel, arg, a2) && #[trigger] rel(
                        Operation::Unary { op: op_type, arg: a2 },
                        v,
                    );
                assert(a2 == a);
            }
        },
        _ => {},
    }
}

/// Slot `i` holds an input without a value.
pub open spec fn is_unset_input(s: Slots, i: int) -> bool {
    &&& 0 <= i < s.len()
    &&& s[i] matches Some(NodeView::Input { value, .. })
    &&& value is None
}

/// An evaluation fails exactly when some input under the node has no value,
/// and the input it reports is one of those.
pub proof fn law_first_unset_is_an_unset_input(s: Slots, n: int)
    ensures
        match first_unset(s, n) {
            Some(i) => reaches(s, n, i) && is_unset_input(s, i),
            None => forall|i: int| #[trigger] reaches(s, n, i) ==> !is_unset_input(s, i),
        },
    decreases n,
{
    if 0 <= n < s.len() {
        match s[n] {
            Some(NodeView::BinaryOp { lhs, rhs, .. }) => {
                if 0 <= lhs < n {
                    law_first_unset_is_an_unset_input(s, lhs);
                }
                if 0 <= rhs < n {
                    law_first_unset_is_an_unset_input(s, rhs);
                }
                match first_unset(s, n) {
                    Some(i) => {
                        if 0 <= lhs < n && first_unset(s, lhs) is Some {
                            lemma_reaches_through_operand(s, n, lhs, i);
                        } else {
                            lemma_reaches_through_operand(s, n, rhs, i);
                        }
                    },
                    None => {
                        assert forall|i: int| #[trigger] reaches(s, n, i) implies !is_unset_input(
                            s,
                            i,
                        ) by {
                            if i != n {
                                if 0 <= lhs < n && reaches(s, lhs, i) {
                                } else {
                                    assert(0 <= rhs < n && reaches(s, rhs, i));
                                }
                            }
                        }
                    },
                }
            },
            Some(NodeView::UnaryOp { arg, .. }) => {
                if 0 <= arg < n {
                    law_first_unset_is_an_unset_input(s, arg);
                }
                match first_unset(s, n) {
                    Some(i) => {
                        lemma_reaches_through_operand(s, n, arg, i);
                    },
                    None => {
                        assert forall|i: int| #[trigger] reaches(s, n, i) implies !is_unset_input(
                            s,
                            i,
                        ) by {
                            if i != n {
                                assert(0 <= arg < n && reaches(s, arg, i));
                            }
                        }
                    },
                }
            },
            _ => {},
        }
    } else {
        assert forall|i: int| #[trigger] reaches(s, n, i) implies !is_unset_input(s, i) by {}
    }
}

/// A result that a node of a well-formed graph holds in its cache is one
/// that evaluating the node from scratch can produce on the values the
/// inputs hold now.
pub proof fn law_cache_is_current(s: Slots, rel: Arith, m: int, v: u32)
    requires
        well_formed(s, rel),
        cache_of(s, m) == Some(v),
    ensures
        evaluates(s, rel, m, v),
{
    lemma_agrees_on_available(s, rel, m);
}

/// With a kernel that gives one result for each request, a node evaluates
/// to at most one value.
pub proof fn law_evaluation_is_unique(s: Slots, rel: Arith, n: int, v: u32, w: u32)
    requires
        functional(rel),
        evaluates(s, rel, n, v),
        evaluates(s, rel, n, w),
    ensures
        v == w,
    decreases n,
{
    match s[n] {
        Some(NodeView::BinaryOp { lhs, rhs, op_type, .. }) => {
            let (a1, b1) = choose|a: u32, b: u32|
                evaluates(s, rel, lhs, a) && evaluates(s, rel, rhs, b) && #[trigger] rel(
                    Operation::Binary { op: op_type, lhs: a, rhs: b },
                    v,
                );
            let (a2, b2) = choose|a: u32, b: u32|
                evaluates(s, rel, lhs, a) && evaluates(s, rel, rhs, b) && #[trigger] rel(
                    Operation::Binary { op: op_type, lhs: a, rhs: b },
                    w,
                );
            law_evaluation_is_unique(s, rel, lhs, a1, a2);
            law_evaluation_is_unique(s, rel, rhs, b1, b2);
        },
        Some(NodeView::UnaryOp { arg, op_type, .. }) => {
            let a1 = choose|a: u32|
                evaluates(s, rel, arg, a) && #[trigger] rel(
                    Operation::Unary { op: op_type, arg: a },
                    v,
                );
            let a2 = choose|a: u32|
                evaluates(s, rel, arg, a) && #[trigger] rel(
                    Operation::Unary { op: op_type, arg: a },
                    w,
                );
            law_evaluation_is_unique(s, rel, arg, a1, a2);
        },
        _ => {},
    }
}

/// Under a node that holds a value every node holds a value: a successful
/// evaluation leaves a result in the cache of every operator it passed.
pub proof fn law_values_below(s: Slots, rel: Arith, n: int, k: int)
    requires
        well_formed(s, rel),
        available(s, n) is Some,
        reaches(s, n, k),
    ensures
        available(s, k) is Some,
{
    lemma_values_below(s, rel, n, k);
}

/// A successful evaluation fills exactly the empty caches under the node:
/// afterwards every node under it holds a value, a node that held one keeps
/// it, and nothing outside changes.
pub proof fn law_compute_fills_what_it_passed(
    pre: Slots,
    rel: Arith,
    node: int,
    post: Slots,
    res: Result<u32, UnsetInput>,
    k: int,
)
    requires
        well_formed(post, rel),
        live(pre, node),
        computed(pre, rel, node, post, res),
        res is Ok,
        0 <= k < pre.len(),
    ensures
        reaches(pre, node, k) ==> available(post, k) is Some,
        available(pre, k) is Some ==> post[k] == pre[k],
        !reaches(pre, node, k) ==> post[k] == pre[k],
        with_cache(post[k], None) == with_cache(pre[k], None),
{
    assert forall|j: int| 0 <= j < pre.len() implies wiring(#[trigger] pre[j]) == wiring(
        post[j],
    ) by {
        assert(with_cache(post[j], None) == with_cache(pre[j], None));
    }
    lemma_same_wiring_reaches(pre, post, node, k);
    if reaches(pre, node, k) {
        law_values_below(post, rel, node, k);
    }
}

/// Every existing operator is registered at every input it depends on, and
/// every registration that still resolves is of an operator that depends on
/// the input: one pass over an input's back-links meets exactly the existing
/// nodes that the input can affect.
pub proof fn law_links_are_exact(s: Slots, rel: Arith, x: int, m: int)
    requires
        well_formed(s, rel),
        is_input(s, x),
        live(s, m),
    ensures
        deps_of(s, x).contains(m) <==> is_operator(s, m) && reaches(s, m, x),
{
    let deps = deps_of(s, x);
    if deps.contains(m) {
        let k = choose|k: int| 0 <= k < deps.len() && deps[k] == m;
        assert(live(s, deps_of(s, x)[k]));
    }
}

/// The forward edges form no cycle: two distinct nodes never reach each
/// other.
pub proof fn law_forward_edges_are_acyclic(s: Slots, n: int, m: int)
    requires
        reaches(s, n, m),
        reaches(s, m, n),
    ensures
        n == m,
{
    lemma_reaches_bounds(s, n, m);
    lemma_reaches_bounds(s, m, n);
}

/// Growing a graph by one node changes nothing of what was there: every
/// node built before holds what it held and evaluates to what it evaluated
/// to.
pub proof fn law_building_spares_existing(
    s: Slots,
    t: Slots,
    rel: Arith,
    node: NodeView,
    m: int,
    v: u32,
)
    requires
        grown(s, t, node),
        0 <= m < s.len(),
    ensures
        available(t, m) == available(s, m),
        evaluates(t, rel, m, v) == evaluates(s, rel, m, v),
        first_unset(t, m) == first_unset(s, m),
{
    assert forall|k: int| 0 <= k <= m implies shape(#[trigger] s[k]) == shape(t[k]) by {
        assert(shape(t[k]) == shape(s[k]));
    }
    lemma_agree_on_prefix(s, t, m);
    lemma_evaluates_agrees(s, t, rel, m, v);
    lemma_first_unset_agrees(s, t, m);
}

/// Releasing a node changes nothing of what remains: every other existing
/// node holds what it held and evaluates to what it evaluated to.
pub proof fn law_release_spares_others(s: Slots, rel: Arith, n: int, m: int, v: u32)
    requires
        live(s, n),
        !in_use(s, n),
        live(s, m),
        m != n,
    ensures
        available(s.update(n, None), m) == available(s, m),
        evaluates(s.update(n, None), rel, m, v) == evaluates(s, rel, m, v),
        first_unset(s.update(n, None), m) == first_unset(s, m),
{
    let t = s.update(n, None);
    assert forall|k: int| #[trigger] reaches(s, m, k) implies 0 <= k < s.len() && k < t.len()
        && shape(s[k]) == shape(t[k]) by {
        lemma_reaches_bounds(s, m, k);
        lemma_unused_is_unreached(s, n, m);
    }
    lemma_evaluates_agrees(s, t, rel, m, v);
    lemma_first_unset_agrees(s, t, m);
}

/// An evaluation of a node that holds a value asks the kernel for nothing.
pub proof fn law_held_value_asks_nothing(pre: Slots, post: Slots, n: int)
    requires
        available(pre, n) is Some,
    ensures
        work(pre, post, n) == Seq::<Applied>::empty(),
{
}

/// An evaluation of an operator whose operands hold values asks the kernel
/// once: for that operator, on those values.
pub proof fn law_one_request_over_held_operands(pre: Slots, post: Slots, n: int)
    requires
        0 <= n < pre.len(),
        available(pre, n) is None,
        post.len() == pre.len(),
        forall|k: int| 0 <= k < n ==> post[k] == pre[k],
        with_cache(post[n], None) == with_cache(pre[n], None),
        match pre[n] {
            Some(NodeView::BinaryOp { lhs, rhs, .. }) => 0 <= lhs < n && 0 <= rhs < n && available(
                pre,
                lhs,
            ) is Some && available(pre, rhs) is Some,
            Some(NodeView::UnaryOp { arg, .. }) => 0 <= arg < n && available(pre, arg) is Some,
            _ => false,
        },
    ensures
        work(pre, post, n) == seq![Applied { node: n, request: request_of(pre, n) }],
{
    match pre[n] {
        Some(NodeView::BinaryOp { lhs, rhs, .. }) => {
            let mid = filled_under(pre, post, lhs);
            assert(available(mid, rhs) == available(pre, rhs));
            assert(work(pre, post, lhs) =~= Seq::<Applied>::empty());
            assert(work(mid, post, rhs) =~= Seq::<Applied>::empty());
            assert(request_of(post, n) == request_of(pre, n));
            assert(work(pre, post, n) =~= seq![Applied { node: n, request: request_of(pre, n) }]);
        },
        Some(NodeView::UnaryOp { arg, .. }) => {
            assert(work(pre, post, arg) =~= Seq::<Applied>::empty());
            assert(request_of(post, n) == request_of(pre, n));
            assert(work(pre, post, n) =~= seq![Applied { node: n, request: request_of(pre, n) }]);
        },
        _ => {},
    }
}

/// After an input is set, the evaluation of a node that does not depend on
/// it and holds a value asks the kernel for nothing: nothing unrelated is
/// worked out again.
pub proof fn law_unrelated_is_not_recomputed(
    s: Slots,
    rel: Arith,
    x: int,
    v: u32,
    m: int,
    post: Slots,
)
    requires
        well_formed(s, rel),
        is_input(s, x),
        live(s, m),
        !reaches(s, m, x),
        available(s, m) is Some,
    ensures
        available(after_set(s, x, v), m) == available(s, m),
        work(after_set(s, x, v), post, m) == Seq::<Applied>::empty(),
{
    law_set_spares_unrelated(s, rel, x, v, m);
}

/// Some request of the evaluation was made for node `k`.
pub open spec fn asked_for(pre: Slots, post: Slots, n: int, k: int) -> bool {
    exists|j: int| 0 <= j < work(pre, post, n).len() && (#[trigger] work(pre, post, n)[j]).node == k
}

/// A successful evaluation asks the kernel for exactly the operators under
/// the node that had no cached result: for each of them once, on the values
/// that its operands hold afterwards, and for no other node.
pub proof fn law_worked_out_exactly(
    pre: Slots,
    rel: Arith,
    node: int,
    post: Slots,
    res: Result<u32, UnsetInput>,
    k: int,
)
    requires
        well_formed(pre, rel),
        well_formed(post, rel),
        live(pre, node),
        computed(pre, rel, node, post, res),
        res is Ok,
    ensures
        asked_for(pre, post, node, k) <==> reaches(pre, node, k) && is_operator(pre, k) && cache_of(
            pre,
            k,
        ) is None,
        forall|j: int|
            0 <= j < work(pre, post, node).len() ==> (#[trigger] work(pre, post, node)[j]).request
                == request_of(post, work(pre, post, node)[j].node),
        forall|i: int, j: int|
            0 <= i < j < work(pre, post, node).len() ==> (#[trigger] work(pre, post, node)[i]).node
                != (#[trigger] work(pre, post, node)[j]).node,
{
    let whole = work(pre, post, node);
    assert(only_fills(pre, post));
    if reaches(pre, node, k) && is_operator(pre, k) && cache_of(pre, k) is None {
        lemma_work_covers(pre, post, rel, node, k);
        let wanted = Applied { node: k, request: request_of(post, k) };
        let j = choose|j: int| 0 <= j < whole.len() && whole[j] == wanted;
        assert(whole[j].node == k);
    }
    if asked_for(pre, post, node, k) {
        let j = choose|j: int| 0 <= j < whole.len() && (#[trigger] whole[j]).node == k;
        lemma_work_only_missing(pre, post, node, j);
    }
    assert forall|j: int| 0 <= j < whole.len() implies (#[trigger] whole[j]).request
        == request_of(post, whole[j].node) by {
        lemma_work_only_missing(pre, post, node, j);
    }
    assert forall|i: int, j: int| 0 <= i < j < whole.len() implies (#[trigger] whole[i]).node != (
    #[trigger] whole[j]).node by {
        lemma_work_once(pre, post, rel, node, i, j);
    }
}

/// After an input is set, a successful evaluation works out again every
/// operator under the node that depends on that input.
pub proof fn law_dependents_are_worked_out_again(
    s: Slots,
    rel: Arith,
    x: int,
    v: u32,
    node: int,
    post: Slots,
    res: Result<u32, UnsetInput>,
    k: int,
)
    requires
        well_formed(s, rel),
        well_formed(post, rel),
        is_input(s, x),
        live(s, node),
        computed(after_set(s, x, v), rel, node, post, res),
        res is Ok,
        reaches(s, node, k),
        is_operator(s, k),
        reaches(s, k, x),
    ensures
        asked_for(after_set(s, x, v), post, node, k),
{
    let pre = after_set(s, x, v);
    lemma_set_keeps_invariant(s, rel, x, v);
    law_set_invalidates_dependents(s, rel, x, v, k);
    lemma_after_set_keeps_wiring(s, x, v);
    lemma_same_wiring_reaches(s, pre, node, k);
    lemma_reaches_bounds(s, node, k);
    assert(live(pre, node) == live(s, node));
    assert(live(pre, k) == live(s, k));
    assert(wiring(s[k]) == wiring(pre[k]));
    law_worked_out_exactly(pre, rel, node, post, res, k);
}

/// After an input is set, an evaluation asks the kernel for no node that
/// holds a cached result and does not depend on that input.
pub proof fn law_unrelated_is_not_asked_for(
    s: Slots,
    rel: Arith,
    x: int,
    v: u32,
    node: int,
    post: Slots,
    m: int,
)
    requires
        well_formed(s, rel),
        is_input(s, x),
        live(s, m),
        !reaches(s, m, x),
        cache_of(s, m) is Some,
        only_fills(after_set(s, x, v), post),
    ensures
        !asked_for(after_set(s, x, v), post, node, m),
{
    let pre = after_set(s, x, v);
    law_set_spares_unrelated(s, rel, x, v, m);
    if asked_for(pre, post, node, m) {
        let whole = work(pre, post, node);
        let j = choose|j: int| 0 <= j < whole.len() && (#[trigger] whole[j]).node == m;
        lemma_work_only_missing(pre, post, node, j);
    }
}

} // verus!
