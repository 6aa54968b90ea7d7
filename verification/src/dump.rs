//! A structural dump of a node for diagnostics: what kind of node it is,
//! what it holds, and, for an input, which dependents still exist.

use crate::graph::ArenaGraph;
use crate::model::{live, node_ok, resolvable, Slots};
use crate::node::{handles_of, ArenaNode, CompNode, NodeView};
use crate::ops::Operation;
use crate::render::{literals_of, renders, Literals};
use vstd::pervasive::unreached;
use vstd::prelude::*;
use vstd::string::*;

verus! {

/// `Some(text)`.
pub open spec fn some_text(text: Seq<char>) -> Seq<char> {
    "Some("@ + text + ")"@
}

/// `head, item`.
pub open spec fn item_after(head: Seq<char>, item: Seq<char>) -> Seq<char> {
    head + ", "@ + item
}

/// `Constant { value: .. }`.
pub open spec fn constant_dump(value: Seq<char>) -> Seq<char> {
    "Constant { value: "@ + value + " }"@
}

/// `Input { name: .., value: .., deps: .. }`.
pub open spec fn input_dump(name: Seq<char>, value: Seq<char>, deps: Seq<char>) -> Seq<char> {
    "Input { name: "@ + name + ", value: "@ + value + ", deps: "@ + deps + " }"@
}

/// `op { rhs: .., lhs: .., cache: .. }`.
pub open spec fn binary_dump(
    op: Seq<char>,
    rhs: Seq<char>,
    lhs: Seq<char>,
    cache: Seq<char>,
) -> Seq<char> {
    op + " { rhs: "@ + rhs + ", lhs: "@ + lhs + ", cache: "@ + cache + " }"@
}

/// `op { arg: .., cache: .. }`.
pub open spec fn unary_dump(op: Seq<char>, arg: Seq<char>, cache: Seq<char>) -> Seq<char> {
    op + " { arg: "@ + arg + ", cache: "@ + cache + " }"@
}

/// `text` is `Some(..)` around what the formatter may give for `bits`.
pub open spec fn shows_some(lit: Literals, bits: u32, text: Seq<char>) -> bool {
    exists|t: String| text == some_text(t@) && #[trigger] lit(bits, t)
}

/// `text` shows a value that may be missing: `None`, or `Some(..)` around
/// the literal.
pub open spec fn shows_optional(lit: Literals, value: Option<u32>, text: Seq<char>) -> bool {
    match value {
        None => text == "None"@,
        Some(bits) => shows_some(lit, bits, text),
    }
}

/// `text` is `Constant { value: .. }` around what the formatter may give
/// for `bits`.
pub open spec fn shows_constant(lit: Literals, bits: u32, text: Seq<char>) -> bool {
    exists|t: String| text == constant_dump(t@) && #[trigger] lit(bits, t)
}

/// `text` lists renderings of the nodes named by `handles`, in order,
/// separated by a comma and a space.
pub open spec fn lists(s: Slots, lit: Literals, handles: Seq<int>, text: Seq<char>) -> bool
    decreases handles.len(),
{
    if handles.len() == 0 {
        text == Seq::<char>::empty()
    } else if handles.len() == 1 {
        renders(s, lit, handles[0], text)
    } else {
        exists|head: Seq<char>, item: Seq<char>|
            lists(s, lit, handles.drop_last(), head) && renders(s, lit, handles.last(), item)
                && text == #[trigger] item_after(head, item)
    }
}

/// `text` is what an input with these parts is dumped as.
pub open spec fn shows_input(
    s: Slots,
    lit: Literals,
    n: int,
    name: Seq<char>,
    value: Option<u32>,
    text: Seq<char>,
) -> bool {
    exists|shown: Seq<char>, listed: Seq<char>|
        shows_optional(lit, value, shown) && lists(s, lit, resolvable(s, n), listed) && text
            == #[trigger] input_dump(name, shown, listed)
}

/// `text` is a dump of node `n`. A constant is dumped with its literal; an
/// input with its name, its value and renderings of the dependents that
/// still exist; an operator under its lower-case name with dumps of its
/// operands, right before left, and its cache.
pub open spec fn dumps(s: Slots, lit: Literals, n: int, text: Seq<char>) -> bool
    decreases n,
{
    if 0 <= n < s.len() {
        match s[n] {
            Some(NodeView::Input { name, value, .. }) => shows_input(s, lit, n, name, value, text),
            Some(NodeView::Constant { value }) => shows_constant(lit, value, text),
            Some(NodeView::BinaryOp { lhs, rhs, cache, op_type }) => {
                &&& 0 <= lhs < n
                &&& 0 <= rhs < n
                &&& exists|right: Seq<char>, left: Seq<char>, held: Seq<char>|
                    dumps(s, lit, rhs, right) && dumps(s, lit, lhs, left) && shows_optional(
                        lit,
                        cache,
                        held,
                    ) && text == #[trigger] binary_dump(op_type.name(), right, left, held)
            },
            Some(NodeView::UnaryOp { arg, cache, op_type }) => {
                &&& 0 <= arg < n
                &&& exists|inner: Seq<char>, held: Seq<char>|
                    dumps(s, lit, arg, inner) && shows_optional(lit, cache, held) && text
                        == #[trigger] unary_dump(op_type.name(), inner, held)
            },
            None => false,
        }
    } else {
        false
    }
}

impl<K: Fn(Operation) -> u32> ArenaGraph<K> {
    /// Shows a value that may be missing.
    fn optional_string<L: Fn(u32) -> String>(value: Option<u32>, literal: &L) -> (text: String)
        requires
            forall|bits: u32| #[trigger] literal.requires((bits,)),
        ensures
            shows_optional(literals_of(*literal), value, text@),
    {
        match value {
            None => String::from_str("None"),
            Some(bits) => {
                let shown = literal(bits);
                let mut text = String::from_str("Some(");
                text.append(shown.as_str());
                text.append(")");
                assert(literals_of(*literal)(bits, shown));
                assert(text@ == some_text(shown@));
                text
            },
        }
    }

    /// Renders the nodes named by `handles` and joins the renderings with a
    /// comma and a space.
    fn join_displays<L: Fn(u32) -> String>(&self, handles: &Vec<CompNode>, literal: &L) -> (text:
        String)
        requires
            self.wf(),
            forall|k: int| 0 <= k < handles@.len() ==> live(self@, #[trigger] handles@[k] as int),
            forall|bits: u32| #[trigger] literal.requires((bits,)),
        ensures
            lists(self@, literals_of(*literal), handles_of(handles@), text@),
    {
        let ghost all = handles_of(handles@);
        let mut text = String::new();
        let mut k: usize = 0;
        assert(all.take(0) =~= Seq::<int>::empty());
        while k < handles.len()
            invariant
                k <= handles.len(),
                self.wf(),
                all == handles_of(handles@),
                forall|j: int|
                    0 <= j < handles@.len() ==> live(self@, #[trigger] handles@[j] as int),
                forall|bits: u32| #[trigger] literal.requires((bits,)),
                lists(self@, literals_of(*literal), all.take(k as int), text@),
            decreases handles.len() - k,
        {
            let item = self.to_display_string(handles[k], literal);
            proof {
                let longer = all.take(k + 1);
                assert(longer.drop_last() =~= all.take(k as int));
                assert(longer.last() == handles@[k as int] as int);
                if k > 0 {
                    assert(item_after(text@, item@) == text@ + ", "@ + item@);
                }
            }
            if k > 0 {
                text.append(", ");
            }
            text.append(item.as_str());
            k += 1;
        }
        assert(all.take(k as int) =~= all);
        text
    }

    /// Dumps the node under `node` with everything it holds. Scalars are
    /// rendered by `literal`.
    pub fn to_debug_string<L: Fn(u32) -> String>(&self, node: CompNode, literal: &L) -> (text:
        String)
        requires
            self.wf(),
            live(self@, node as int),
            forall|bits: u32| #[trigger] literal.requires((bits,)),
        ensures
            dumps(self@, literals_of(*literal), node as int, text@),
        decreases node,
    {
        proof {
            assert(node_ok(self@, node as int));
        }
        match self.get(node) {
            Some(ArenaNode::Constant { value }) => {
                let shown = literal(*value);
                let mut text = String::from_str("Constant { value: ");
                text.append(shown.as_str());
                text.append(" }");
                assert(literals_of(*literal)(*value, shown));
                assert(text@ == constant_dump(shown@));
                text
            },
            Some(ArenaNode::Input { name, value, .. }) => {
                let shown = Self::optional_string(*value, literal);
                let dependents = self.resolvable_dependents(node);
                let listed = self.join_displays(&dependents, literal);
                let mut text = String::from_str("Input { name: ");
                text.append(name);
                text.append(", value: ");
                text.append(shown.as_str());
                text.append(", deps: ");
                text.append(listed.as_str());
                text.append(" }");
                assert(text@ == input_dump(name@, shown@, listed@));
                text
            },
            Some(ArenaNode::BinaryOp { lhs, rhs, cache, op_type }) => {
                let right = self.to_debug_string(*rhs, literal);
                let left = self.to_debug_string(*lhs, literal);
                let held = Self::optional_string(*cache, literal);
                let mut text = op_type.to_string();
                text.append(" { rhs: ");
                text.append(right.as_str());
                text.append(", lhs: ");
                text.append(left.as_str());
                text.append(", cache: ");
                text.append(held.as_str());
                text.append(" }");
                assert(text@ == binary_dump(op_type.name(), right@, left@, held@));
                text
            },
            Some(ArenaNode::UnaryOp { arg, cache, op_type }) => {
                let inner = self.to_debug_string(*arg, literal);
                let held = Self::optional_string(*cache, literal);
                let mut text = op_type.to_string();
                text.append(" { arg: ");
                text.append(inner.as_str());
                text.append(", cache: ");
                text.append(held.as_str());
                text.append(" }");
                assert(text@ == unary_dump(op_type.name(), inner@, held@));
                text
            },
            None => unreached(),
        }
    }
}

} // verus!
