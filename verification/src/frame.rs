//! Frame lemmas: what evaluation from scratch says of a node depends only on
//! the shape of the slots that the node reaches.

use crate::model::{
    agree_under, available, evaluates, existing, filled_under, first_unset, live, paths, reaches,
    same_wiring, shape, uses, wiring, work, Arith, Slots,
};
use crate::node::NodeView;
use crate::ops::Operation;
use vstd::prelude::*;

verus! {

/// Graphs that agree in shape under `n` agree on which slots `n` reaches.
pub proof fn lemma_reaches_agrees(s1: Slots, s2: Slots, n: int, m: int)
    requires
        agree_under(s1, s2, n),
    ensures
        reaches(s1, n, m) == reaches(s2, n, m),
    decreases n,
{
    assert(reaches(s1, n, n));
    if n != m {
        match s1[n] {
            Some(NodeView::BinaryOp { lhs, rhs, .. }) => {
                if 0 <= lhs < n {
                    lemma_agree_descends(s1, s2, n, lhs);
                    lemma_reaches_agrees(s1, s2, lhs, m);
                }
                if 0 <= rhs < n {
                    lemma_agree_descends(s1, s2, n, rhs);
                    lemma_reaches_agrees(s1, s2, rhs, m);
                }
            },
            Some(NodeView::UnaryOp { arg, .. }) => {
                if 0 <= arg < n {
                    lemma_agree_descends(s1, s2, n, arg);
                    lemma_reaches_agrees(s1, s2, arg, m);
                }
            },
            _ => {},
        }
    }
}

/// Reachability composes: what an operand of `n` reaches, `n` reaches.
pub proof fn lemma_reaches_through_operand(s: Slots, n: int, child: int, m: int)
    requires
        0 <= child < n < s.len(),
        uses(s[n], child),
        reaches(s, child, m),
    ensures
        reaches(s, n, m),
{
}

/// Agreement under a node carries over to each of its operands.
pub proof fn lemma_agree_descends(s1: Slots, s2: Slots, n: int, child: int)
    requires
        agree_under(s1, s2, n),
        0 <= child < n,
        0 <= n < s1.len(),
        uses(s1[n], child),
    ensures
        agree_under(s1, s2, child),
{
    assert forall|k: int| #[trigger] reaches(s1, child, k) implies 0 <= k < s1.len() && k
        < s2.len() && shape(s1[k]) == shape(s2[k]) by {
        lemma_reaches_through_operand(s1, n, child, k);
    }
}

/// Graphs that agree in shape under `n` agree on the number of paths from `n`.
pub proof fn lemma_paths_agrees(s1: Slots, s2: Slots, n: int, m: int)
    requires
        agree_under(s1, s2, n),
    ensures
        paths(s1, n, m) == paths(s2, n, m),
    decreases n,
{
    assert(reaches(s1, n, n));
    if n != m {
        match s1[n] {
            Some(NodeView::BinaryOp { lhs, rhs, .. }) => {
                if 0 <= lhs < n {
                    lemma_agree_descends(s1, s2, n, lhs);
                    lemma_paths_agrees(s1, s2, lhs, m);
                }
                if 0 <= rhs < n {
                    lemma_agree_descends(s1, s2, n, rhs);
                    lemma_paths_agrees(s1, s2, rhs, m);
                }
            },
            Some(NodeView::UnaryOp { arg, .. }) => {
                if 0 <= arg < n {
                    lemma_agree_descends(s1, s2, n, arg);
                    lemma_paths_agrees(s1, s2, arg, m);
                }
            },
            _ => {},
        }
    }
}

/// Graphs that agree in shape under `n` agree on the first unset input under `n`.
pub proof fn lemma_first_unset_agrees(s1: Slots, s2: Slots, n: int)
    requires
        agree_under(s1, s2, n),
    ensures
        first_unset(s1, n) == first_unset(s2, n),
    decreases n,
{
    assert(reaches(s1, n, n));
    match s1[n] {
        Some(NodeView::BinaryOp { lhs, rhs, .. }) => {
            if 0 <= lhs < n {
                lemma_agree_descends(s1, s2, n, lhs);
                lemma_first_unset_agrees(s1, s2, lhs);
            }
            if 0 <= rhs < n {
                lemma_agree_descends(s1, s2, n, rhs);
                lemma_first_unset_agrees(s1, s2, rhs);
            }
        },
        Some(NodeView::UnaryOp { arg, .. }) => {
            if 0 <= arg < n {
                lemma_agree_descends(s1, s2, n, arg);
                lemma_first_unset_agrees(s1, s2, arg);
            }
        },
        _ => {},
    }
}

/// One direction of the frame property for evaluation.
proof fn lemma_evaluates_carries(s1: Slots, s2: Slots, rel: Arith, n: int, v: u32)
    requires
        agree_under(s1, s2, n),
        evaluates(s1, rel, n, v),
    ensures
        evaluates(s2, rel, n, v),
    decreases n,
{
    assert(reaches(s1, n, n));
    match s1[n] {
        Some(NodeView::BinaryOp { lhs, rhs, op_type, .. }) => {
            let (a, b) = choose|a: u32, b: u32|
                evaluates(s1, rel, lhs, a) && evaluates(s1, rel, rhs, b) && #[trigger] rel(
                    Operation::Binary { op: op_type, lhs: a, rhs: b },
                    v,
                );
            lemma_agree_descends(s1, s2, n, lhs);
            lemma_agree_descends(s1, s2, n, rhs);
            lemma_evaluates_carries(s1, s2, rel, lhs, a);
            lemma_evaluates_carries(s1, s2, rel, rhs, b);
        },
        Some(NodeView::UnaryOp { arg, op_type, .. }) => {
            let a = choose|a: u32|
                evaluates(s1, rel, arg, a) && #[trigger] rel(
                    Operation::Unary { op: op_type, arg: a },
                    v,
                );
            lemma_agree_descends(s1, s2, n, arg);
            lemma_evaluates_carries(s1, s2, rel, arg, a);
        },
        _ => {},
    }
}

/// Agreement under a node is symmetric.
pub proof fn lemma_agree_symmetric(s1: Slots, s2: Slots, n: int)
    requires
        agree_under(s1, s2, n),
    ensures
        agree_under(s2, s1, n),
{
    assert forall|k: int| #[trigger] reaches(s2, n, k) implies 0 <= k < s2.len() && k < s1.len()
        && shape(s2[k]) == shape(s1[k]) by {
        lemma_reaches_agrees(s1, s2, n, k);
    }
}

/// Graphs that agree in shape under `n` agree on what `n` can evaluate to.
pub proof fn lemma_evaluates_agrees(s1: Slots, s2: Slots, rel: Arith, n: int, v: u32)
    requires
        agree_under(s1, s2, n),
    ensures
        evaluates(s1, rel, n, v) == evaluates(s2, rel, n, v),
{
    if evaluates(s1, rel, n, v) {
        lemma_evaluates_carries(s1, s2, rel, n, v);
    }
    if evaluates(s2, rel, n, v) {
        lemma_agree_symmetric(s1, s2, n);
        lemma_evaluates_carries(s2, s1, rel, n, v);
    }
}

/// A node reaches only itself and slots created before it.
pub proof fn lemma_reaches_bounds(s: Slots, n: int, m: int)
    requires
        reaches(s, n, m),
    ensures
        n == m || (0 <= m < n && n < s.len()),
    decreases n,
{
    if n != m {
        match s[n] {
            Some(NodeView::BinaryOp { lhs, rhs, .. }) => {
                if 0 <= lhs < n && reaches(s, lhs, m) {
                    lemma_reaches_bounds(s, lhs, m);
                } else {
                    lemma_reaches_bounds(s, rhs, m);
                }
            },
            Some(NodeView::UnaryOp { arg, .. }) => {
                lemma_reaches_bounds(s, arg, m);
            },
            _ => {},
        }
    }
}

/// Two graphs that hold the same shapes up to slot `n` agree under `n`.
pub proof fn lemma_agree_on_prefix(s1: Slots, s2: Slots, n: int)
    requires
        0 <= n < s1.len(),
        n < s2.len(),
        forall|k: int| 0 <= k <= n ==> shape(#[trigger] s1[k]) == shape(s2[k]),
    ensures
        agree_under(s1, s2, n),
{
    assert forall|k: int| #[trigger] reaches(s1, n, k) implies 0 <= k < s1.len() && k < s2.len()
        && shape(s1[k]) == shape(s2[k]) by {
        lemma_reaches_bounds(s1, n, k);
    }
}

/// A node reaches exactly the slots to which it has at least one path.
pub proof fn lemma_paths_positive(s: Slots, n: int, m: int)
    ensures
        reaches(s, n, m) <==> paths(s, n, m) > 0,
    decreases n,
{
    if n != m && 0 <= n < s.len() {
        match s[n] {
            Some(NodeView::BinaryOp { lhs, rhs, .. }) => {
                if 0 <= lhs < n {
                    lemma_paths_positive(s, lhs, m);
                }
                if 0 <= rhs < n {
                    lemma_paths_positive(s, rhs, m);
                }
            },
            Some(NodeView::UnaryOp { arg, .. }) => {
                if 0 <= arg < n {
                    lemma_paths_positive(s, arg, m);
                }
            },
            _ => {},
        }
    }
}

/// Graphs with the same forward edges agree on reachability and on the
/// number of paths.
pub proof fn lemma_same_wiring_reaches(s1: Slots, s2: Slots, n: int, m: int)
    requires
        same_wiring(s1, s2),
    ensures
        reaches(s1, n, m) == reaches(s2, n, m),
        paths(s1, n, m) == paths(s2, n, m),
    decreases n,
{
    if n != m && 0 <= n < s1.len() {
        assert(wiring(s1[n]) == wiring(s2[n]));
        match s1[n] {
            Some(NodeView::BinaryOp { lhs, rhs, .. }) => {
                if 0 <= lhs < n {
                    lemma_same_wiring_reaches(s1, s2, lhs, m);
                }
                if 0 <= rhs < n {
                    lemma_same_wiring_reaches(s1, s2, rhs, m);
                }
            },
            Some(NodeView::UnaryOp { arg, .. }) => {
                if 0 <= arg < n {
                    lemma_same_wiring_reaches(s1, s2, arg, m);
                }
            },
            _ => {},
        }
    }
}

/// Reachability is transitive.
pub proof fn lemma_reaches_transitive(s: Slots, n: int, mid: int, m: int)
    requires
        reaches(s, n, mid),
        reaches(s, mid, m),
    ensures
        reaches(s, n, m),
    decreases n,
{
    if n != mid {
        match s[n] {
            Some(NodeView::BinaryOp { lhs, rhs, .. }) => {
                if 0 <= lhs < n && reaches(s, lhs, mid) {
                    lemma_reaches_transitive(s, lhs, mid, m);
                } else {
                    lemma_reaches_transitive(s, rhs, mid, m);
                }
            },
            Some(NodeView::UnaryOp { arg, .. }) => {
                lemma_reaches_transitive(s, arg, mid, m);
            },
            _ => {},
        }
    }
}

/// An operand of a node that `n` reaches is reached by `n`.
pub proof fn lemma_reaches_operand_of(s: Slots, n: int, mid: int, child: int)
    requires
        reaches(s, n, mid),
        0 <= child < mid < s.len(),
        uses(s[mid], child),
    ensures
        reaches(s, n, child),
{
    assert(reaches(s, child, child));
    lemma_reaches_through_operand(s, mid, child, child);
    lemma_reaches_transitive(s, n, mid, child);
}

/// An empty list names no existing node.
pub proof fn lemma_existing_none(s: Slots)
    ensures
        existing(s, Seq::empty()) == Seq::<int>::empty(),
{
    reveal(Seq::filter);
}

/// Which handles of a list exist, one handle further.
pub proof fn lemma_existing_step(s: Slots, handles: Seq<int>, k: int)
    requires
        0 <= k < handles.len(),
    ensures
        existing(s, handles.take(k + 1)) == if live(s, handles[k]) {
            existing(s, handles.take(k)).push(handles[k])
        } else {
            existing(s, handles.take(k))
        },
{
    reveal(Seq::filter);
    let longer = handles.take(k + 1);
    assert(longer.drop_last() =~= handles.take(k));
    assert(longer.last() == handles[k]);
}

/// The requests of an evaluation depend on the graph after it only through
/// the slots under the node.
pub proof fn lemma_work_agrees(pre: Slots, post1: Slots, post2: Slots, n: int)
    requires
        same_wiring(pre, post1),
        same_wiring(pre, post2),
        forall|k: int| #[trigger] reaches(pre, n, k) ==> post1[k] == post2[k],
    ensures
        work(pre, post1, n) == work(pre, post2, n),
    decreases n,
{
    assert(reaches(pre, n, n));
    if 0 <= n < pre.len() && available(pre, n) is None {
        match pre[n] {
            Some(NodeView::BinaryOp { lhs, rhs, .. }) => {
                if 0 <= lhs < n && 0 <= rhs < n {
                    assert(reaches(pre, lhs, lhs) && reaches(pre, rhs, rhs));
                    lemma_reaches_through_operand(pre, n, lhs, lhs);
                    lemma_reaches_through_operand(pre, n, rhs, rhs);
                    assert forall|k: int| #[trigger] reaches(pre, lhs, k) implies post1[k]
                        == post2[k] by {
                        lemma_reaches_through_operand(pre, n, lhs, k);
                    }
                    lemma_work_agrees(pre, post1, post2, lhs);
                    let mid1 = filled_under(pre, post1, lhs);
                    let mid2 = filled_under(pre, post2, lhs);
                    assert(mid1 =~= mid2);
                    assert(same_wiring(pre, mid1));
                    assert forall|k: int| #[trigger] reaches(mid1, rhs, k) implies post1[k]
                        == post2[k] by {
                        lemma_same_wiring_reaches(pre, mid1, rhs, k);
                        lemma_reaches_through_operand(pre, n, rhs, k);
                    }
                    assert(same_wiring(mid1, post1)) by {
                        assert forall|k: int| 0 <= k < mid1.len() implies wiring(
                            #[trigger] mid1[k],
                        ) == wiring(post1[k]) by {
                            assert(wiring(pre[k]) == wiring(post1[k]));
                        }
                    }
                    assert(same_wiring(mid1, post2)) by {
                        assert forall|k: int| 0 <= k < mid1.len() implies wiring(
                            #[trigger] mid1[k],
                        ) == wiring(post2[k]) by {
                            assert(wiring(pre[k]) == wiring(post2[k]));
                            assert(wiring(pre[k]) == wiring(post1[k]));
                        }
                    }
                    lemma_work_agrees(mid1, post1, post2, rhs);
                }
            },
            Some(NodeView::UnaryOp { arg, .. }) => {
                if 0 <= arg < n {
                    assert(reaches(pre, arg, arg));
                    lemma_reaches_through_operand(pre, n, arg, arg);
                    assert forall|k: int| #[trigger] reaches(pre, arg, k) implies post1[k]
                        == post2[k] by {
                        lemma_reaches_through_operand(pre, n, arg, k);
                    }
                    lemma_work_agrees(pre, post1, post2, arg);
                }
            },
            _ => {},
        }
    }
}

} // verus!
