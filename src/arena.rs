//! Node records and the append-only arena that holds them.

use append_only_vec::AppendOnlyVec;
use vstd::prelude::*;

verus! {

/// The operation that produced a node, with the arena indices of its operands.
#[derive(Clone, Copy, Debug, PartialEq, Eq, Structural)]
pub enum Op {
    /// An input of the graph: no operands.
    Leaf,
    /// The sum of two earlier nodes (possibly the same node twice).
    Add(usize, usize),
}

/// The immutable part of a node: its forward value and how it was made.
#[derive(Clone, Copy, Debug, PartialEq, Eq, Structural)]
pub struct Node {
    pub data: i64,
    pub op: Op,
}

/// How many times node `j` is an operand of `op`; this is also the local
/// derivative of an addition with respect to `j`.
pub open spec fn operand_count(op: Op, j: int) -> int {
    match op {
        Op::Leaf => 0,
        Op::Add(l, r) => (if l == j { 1int } else { 0int }) + (if r == j { 1int } else { 0int }),
    }
}

/// Every operand of `op` lies strictly below `i`.
pub open spec fn operands_below(op: Op, i: int) -> bool {
    match op {
        Op::Leaf => true,
        Op::Add(l, r) => l < i && r < i,
    }
}

#[verifier::external_type_specification]
#[verifier::external_body]
#[verifier::reject_recursive_types(T)]
pub struct ExAppendOnlyVec<T>(AppendOnlyVec<T>);

/// The sequence of node records that an arena holds, in push order.
pub uninterp spec fn arena_nodes(v: AppendOnlyVec<Node>) -> Seq<Node>;

/// Relies on `AppendOnlyVec::new`: a new vector is empty.
#[verifier::external_body]
pub(crate) fn arena_new() -> (r: AppendOnlyVec<Node>)
    ensures
        arena_nodes(r) == Seq::<Node>::empty(),
{
    AppendOnlyVec::new()
}

/// Relies on `AppendOnlyVec::len`: the number of elements pushed so far.
#[verifier::external_body]
pub(crate) fn arena_len(v: &AppendOnlyVec<Node>) -> (r: usize)
    ensures
        r == arena_nodes(*v).len(),
{
    v.len()
}

/// Relies on `AppendOnlyVec::push_mut`: appends at the end and returns the
/// index the element was stored at.
#[verifier::external_body]
pub(crate) fn arena_push(v: &mut AppendOnlyVec<Node>, n: Node) -> (r: usize)
    ensures
        arena_nodes(*final(v)) == arena_nodes(*old(v)).push(n),
        r == arena_nodes(*old(v)).len(),
{
    v.push_mut(n)
}

/// Relies on `AppendOnlyVec`'s `Index`: the element stored at `i`, which
/// panics only when `i` is not below the length.
#[verifier::external_body]
pub(crate) fn arena_get(v: &AppendOnlyVec<Node>, i: usize) -> (r: Node)
    requires
        i < arena_nodes(*v).len(),
    ensures
        r == arena_nodes(*v)[i as int],
{
    v[i]
}

} // verus!
