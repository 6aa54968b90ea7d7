//! Which requests an evaluation makes: one for every operator under the
//! node that had no cached result.

use crate::frame::{
    lemma_reaches_bounds, lemma_reaches_operand_of, lemma_reaches_through_operand,
    lemma_same_wiring_reaches,
};
use crate::model::{
    available, cache_of, cache_ok, deps_of, filled_under, is_input, is_operator, live, node_ok,
    only_fills, reaches, request_of, same_wiring, uses, well_formed, wiring, with_cache, work,
    Arith, Slots,
};
use crate::node::NodeView;
use crate::ops::Applied;
use crate::preserve::lemma_values_below;
use vstd::prelude::*;

verus! {

/// Filling caches keeps the forward edges.
pub proof fn lemma_only_fills_wiring(pre: Slots, post: Slots)
    requires
        only_fills(pre, post),
    ensures
        same_wiring(pre, post),
{
    assert forall|k: int| 0 <= k < pre.len() implies wiring(#[trigger] pre[k]) == wiring(
        post[k],
    ) by {
        assert(with_cache(post[k], None) == with_cache(pre[k], None));
    }
}

/// A slot that holds a value is left as it is when caches are filled.
pub proof fn lemma_only_fills_keeps_values(pre: Slots, post: Slots, k: int)
    requires
        only_fills(pre, post),
        0 <= k < pre.len(),
        available(pre, k) is Some,
    ensures
        post[k] == pre[k],
{
    assert(with_cache(post[k], None) == with_cache(pre[k], None));
}

/// The graph in the middle of an evaluation is well formed, and what is
/// left to do from there is to fill caches.
pub proof fn lemma_filled_under_keeps_invariant(pre: Slots, post: Slots, rel: Arith, n: int)
    requires
        well_formed(pre, rel),
        well_formed(post, rel),
        only_fills(pre, post),
    ensures
        well_formed(filled_under(pre, post, n), rel),
        only_fills(pre, filled_under(pre, post, n)),
        only_fills(filled_under(pre, post, n), post),
{
    let mid = filled_under(pre, post, n);
    assert(only_fills(pre, mid));
    assert(only_fills(mid, post)) by {
        assert forall|k: int| 0 <= k < mid.len() implies {
            &&& with_cache(#[trigger] post[k], None) == with_cache(mid[k], None)
            &&& cache_of(mid, k) is Some ==> post[k] == mid[k]
        } by {
            assert(with_cache(post[k], None) == with_cache(pre[k], None));
        }
    }
    lemma_only_fills_wiring(pre, mid);
    lemma_only_fills_wiring(pre, post);
    assert forall|k: int| 0 <= k < mid.len() implies #[trigger] node_ok(mid, k) by {
        assert(node_ok(pre, k));
        assert(node_ok(post, k));
        assert(with_cache(post[k], None) == with_cache(pre[k], None));
        match pre[k] {
            Some(NodeView::BinaryOp { lhs, rhs, .. }) => {
                assert(with_cache(post[lhs], None) == with_cache(pre[lhs], None));
                assert(with_cache(post[rhs], None) == with_cache(pre[rhs], None));
            },
            Some(NodeView::UnaryOp { arg, .. }) => {
                assert(with_cache(post[arg], None) == with_cache(pre[arg], None));
            },
            _ => {},
        }
    }
    assert forall|m: int, i: int|
        is_operator(mid, m) && is_input(mid, i) && #[trigger] reaches(
            mid,
            m,
            i,
        ) implies deps_of(mid, i).contains(m) by {
        lemma_same_wiring_reaches(pre, mid, m, i);
        assert(with_cache(post[m], None) == with_cache(pre[m], None));
        assert(with_cache(post[i], None) == with_cache(pre[i], None));
        assert(reaches(pre, m, i));
    }
    assert forall|i: int, k: int|
        is_input(mid, i) && 0 <= k < deps_of(mid, i).len()
            && live(mid, #[trigger] deps_of(mid, i)[k])
            implies is_operator(mid, deps_of(mid, i)[k]) && reaches(
            mid,
            deps_of(mid, i)[k],
            i,
        ) by {
        assert(with_cache(post[i], None) == with_cache(pre[i], None));
        let d = deps_of(pre, i)[k];
        assert(node_ok(pre, i));
        assert(with_cache(post[d], None) == with_cache(pre[d], None));
        assert(live(pre, d));
        lemma_same_wiring_reaches(pre, mid, d, i);
    }
    assert forall|m: int| 0 <= m < mid.len() implies #[trigger] cache_ok(mid, rel, m) by {
        if cache_of(mid, m) is Some {
            assert(cache_ok(pre, rel, m));
            assert(cache_ok(post, rel, m));
            assert(node_ok(pre, m));
            assert(with_cache(post[m], None) == with_cache(pre[m], None));
            match pre[m] {
                Some(NodeView::BinaryOp { lhs, rhs, .. }) => {
                    lemma_operand_in_the_middle(pre, post, n, m, lhs);
                    lemma_operand_in_the_middle(pre, post, n, m, rhs);
                },
                Some(NodeView::UnaryOp { arg, .. }) => {
                    lemma_operand_in_the_middle(pre, post, n, m, arg);
                },
                _ => {},
            }
        }
    }
}

/// In the middle of an evaluation, an operand of a node with a filled cache
/// holds what it holds in the graph that the node's slot was taken from.
proof fn lemma_operand_in_the_middle(pre: Slots, post: Slots, n: int, m: int, child: int)
    requires
        only_fills(pre, post),
        0 <= child < m < pre.len(),
        uses(pre[m], child),
        cache_of(filled_under(pre, post, n), m) is Some,
        cache_of(pre, m) is Some ==> available(pre, child) is Some,
    ensures
        available(filled_under(pre, post, n), child) == if reaches(pre, n, m) {
            available(post, child)
        } else {
            available(pre, child)
        },
{
    let mid = filled_under(pre, post, n);
    assert(with_cache(post[child], None) == with_cache(pre[child], None));
    if reaches(pre, n, m) {
        lemma_reaches_operand_of(pre, n, m, child);
    } else {
        assert(mid[m] == pre[m]);
        lemma_only_fills_keeps_values(pre, post, child);
    }
}

/// A successful evaluation asks the kernel for every operator under the
/// node that had no cached result.
pub proof fn lemma_work_covers(pre: Slots, post: Slots, rel: Arith, n: int, k: int)
    requires
        well_formed(pre, rel),
        well_formed(post, rel),
        only_fills(pre, post),
        available(post, n) is Some,
        reaches(pre, n, k),
        is_operator(pre, k),
        cache_of(pre, k) is None,
    ensures
        work(pre, post, n).contains(Applied { node: k, request: request_of(post, k) }),
    decreases n,
{
    lemma_reaches_bounds(pre, n, k);
    lemma_only_fills_wiring(pre, post);
    assert(with_cache(post[n], None) == with_cache(pre[n], None));
    if available(pre, n) is Some {
        lemma_values_below(pre, rel, n, k);
    }
    assert(cache_ok(post, rel, n));
    assert(node_ok(pre, n));
    match pre[n] {
        Some(NodeView::BinaryOp { lhs, rhs, .. }) => {
            let left = work(pre, post, lhs);
            let mid = filled_under(pre, post, lhs);
            let right = work(mid, post, rhs);
            let whole = work(pre, post, n);
            let wanted = Applied { node: k, request: request_of(post, k) };
            assert(whole == (left + right).push(Applied { node: n, request: request_of(post, n) }));
            if k == n {
                assert(whole[whole.len() - 1] == wanted);
            } else if reaches(pre, lhs, k) {
                lemma_work_covers(pre, post, rel, lhs, k);
                let j = choose|j: int| 0 <= j < left.len() && left[j] == wanted;
                assert(whole[j] == wanted);
            } else {
                lemma_filled_under_keeps_invariant(pre, post, rel, lhs);
                lemma_only_fills_wiring(pre, mid);
                lemma_same_wiring_reaches(pre, mid, rhs, k);
                assert(mid[k] == pre[k]);
                lemma_work_covers(mid, post, rel, rhs, k);
                let j = choose|j: int| 0 <= j < right.len() && right[j] == wanted;
                assert(whole[left.len() + j] == wanted);
            }
        },
        Some(NodeView::UnaryOp { arg, .. }) => {
            let inner = work(pre, post, arg);
            let whole = work(pre, post, n);
            let wanted = Applied { node: k, request: request_of(post, k) };
            assert(whole == inner.push(Applied { node: n, request: request_of(post, n) }));
            if k == n {
                assert(whole[whole.len() - 1] == wanted);
            } else {
                lemma_work_covers(pre, post, rel, arg, k);
                let j = choose|j: int| 0 <= j < inner.len() && inner[j] == wanted;
                assert(whole[j] == wanted);
            }
        },
        _ => {},
    }
}

/// What is left to do in the middle of an evaluation is to fill caches.
pub proof fn lemma_filled_under_only_fills(pre: Slots, post: Slots, n: int)
    requires
        only_fills(pre, post),
    ensures
        only_fills(filled_under(pre, post, n), post),
        same_wiring(pre, filled_under(pre, post, n)),
{
    let mid = filled_under(pre, post, n);
    assert forall|k: int| 0 <= k < mid.len() implies {
        &&& with_cache(#[trigger] post[k], None) == with_cache(mid[k], None)
        &&& cache_of(mid, k) is Some ==> post[k] == mid[k]
    } by {
        assert(with_cache(post[k], None) == with_cache(pre[k], None));
    }
    assert forall|k: int| 0 <= k < pre.len() implies wiring(#[trigger] pre[k]) == wiring(
        mid[k],
    ) by {
        assert(with_cache(post[k], None) == with_cache(pre[k], None));
    }
}

/// An evaluation asks the kernel only for operators under the node that had
/// no cached result, and for each on the values that its operands hold
/// afterwards.
pub proof fn lemma_work_only_missing(pre: Slots, post: Slots, n: int, j: int)
    requires
        only_fills(pre, post),
        0 <= j < work(pre, post, n).len(),
    ensures
        reaches(pre, n, work(pre, post, n)[j].node),
        is_operator(pre, work(pre, post, n)[j].node),
        cache_of(pre, work(pre, post, n)[j].node) is None,
        work(pre, post, n)[j].request == request_of(post, work(pre, post, n)[j].node),
    decreases n,
{
    let whole = work(pre, post, n);
    match pre[n] {
        Some(NodeView::BinaryOp { lhs, rhs, .. }) => {
            let left = work(pre, post, lhs);
            let mid = filled_under(pre, post, lhs);
            let right = work(mid, post, rhs);
            if j < left.len() {
                assert(whole[j] == left[j]);
                lemma_work_only_missing(pre, post, lhs, j);
                lemma_reaches_through_operand(pre, n, lhs, left[j].node);
            } else if j < left.len() + right.len() {
                let i = j - left.len();
                assert(whole[j] == right[i]);
                lemma_filled_under_only_fills(pre, post, lhs);
                lemma_work_only_missing(mid, post, rhs, i);
                let k = right[i].node;
                lemma_same_wiring_reaches(pre, mid, rhs, k);
                lemma_reaches_bounds(pre, rhs, k);
                lemma_reaches_through_operand(pre, n, rhs, k);
                assert(with_cache(post[k], None) == with_cache(pre[k], None));
            } else {
                assert(whole[j] == Applied { node: n, request: request_of(post, n) });
            }
        },
        Some(NodeView::UnaryOp { arg, .. }) => {
            let inner = work(pre, post, arg);
            if j < inner.len() {
                assert(whole[j] == inner[j]);
                lemma_work_only_missing(pre, post, arg, j);
                lemma_reaches_through_operand(pre, n, arg, inner[j].node);
            } else {
                assert(whole[j] == Applied { node: n, request: request_of(post, n) });
            }
        },
        _ => {},
    }
}

/// An evaluation asks the kernel at most once for each node.
pub proof fn lemma_work_once(pre: Slots, post: Slots, rel: Arith, n: int, i: int, j: int)
    requires
        well_formed(pre, rel),
        well_formed(post, rel),
        only_fills(pre, post),
        0 <= i < j < work(pre, post, n).len(),
    ensures
        work(pre, post, n)[i].node != work(pre, post, n)[j].node,
    decreases n,
{
    let whole = work(pre, post, n);
    lemma_work_only_missing(pre, post, n, i);
    lemma_work_only_missing(pre, post, n, j);
    match pre[n] {
        Some(NodeView::BinaryOp { lhs, rhs, .. }) => {
            let left = work(pre, post, lhs);
            let mid = filled_under(pre, post, lhs);
            let right = work(mid, post, rhs);
            if j < left.len() {
                assert(whole[i] == left[i] && whole[j] == left[j]);
                lemma_work_once(pre, post, rel, lhs, i, j);
            } else if j < left.len() + right.len() {
                lemma_filled_under_keeps_invariant(pre, post, rel, lhs);
                assert(whole[j] == right[j - left.len()]);
                lemma_work_only_missing(mid, post, rhs, j - left.len());
                if i < left.len() {
                    assert(whole[i] == left[i]);
                    lemma_work_only_missing(pre, post, lhs, i);
                    let a = left[i].node;
                    lemma_reaches_bounds(pre, lhs, a);
                    lemma_only_fills_wiring(pre, post);
                    lemma_same_wiring_reaches(pre, post, lhs, a);
                    lemma_values_below(post, rel, lhs, a);
                    assert(with_cache(post[a], None) == with_cache(pre[a], None));
                    assert(mid[a] == post[a]);
                } else {
                    assert(whole[i] == right[i - left.len()]);
                    lemma_work_once(mid, post, rel, rhs, i - left.len(), j - left.len());
                }
            } else {
                assert(whole[j].node == n);
                let a = whole[i].node;
                if i < left.len() {
                    assert(whole[i] == left[i]);
                    lemma_work_only_missing(pre, post, lhs, i);
                    lemma_reaches_bounds(pre, lhs, a);
                } else {
                    assert(whole[i] == right[i - left.len()]);
                    lemma_filled_under_only_fills(pre, post, lhs);
                    lemma_work_only_missing(mid, post, rhs, i - left.len());
                    lemma_same_wiring_reaches(pre, mid, rhs, a);
                    lemma_reaches_bounds(pre, rhs, a);
                }
            }
        },
        Some(NodeView::UnaryOp { arg, .. }) => {
            let inner = work(pre, post, arg);
            if j < inner.len() {
                assert(whole[i] == inner[i] && whole[j] == inner[j]);
                lemma_work_once(pre, post, rel, arg, i, j);
            } else {
                assert(whole[j].node == n);
                assert(whole[i] == inner[i]);
                lemma_work_only_missing(pre, post, arg, i);
                lemma_reaches_bounds(pre, arg, whole[i].node);
            }
        },
        _ => {},
    }
}

} // verus!
