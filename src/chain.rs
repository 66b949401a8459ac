//! The mathematics of the backward pass: which nodes a root depends on, and
//! the gradient each of them ends up with.

use crate::arena::{operand_count, operands_below, Node, Op};
use vstd::prelude::*;

verus! {

/// The gradient that a node whose operation is `op` hands to node `j`, when
/// its own gradient is `g`: the local derivative of a sum is one for each
/// operand slot that `j` fills.
pub open spec fn weighted(op: Op, j: int, g: int) -> int {
    match op {
        Op::Leaf => 0,
        Op::Add(l, r) => (if l == j { g } else { 0 }) + (if r == j { g } else { 0 }),
    }
}

/// Node `j` is reachable from `root` along operand edges (`root` included).
pub open spec fn reach(nodes: Seq<Node>, root: int, j: int) -> bool
    decreases root - j, root + 1 - j,
{
    if j < 0 || j > root {
        false
    } else if j == root {
        true
    } else {
        consumed(nodes, root, j, j + 1)
    }
}

/// Some node with index in `max(lo, j + 1) ..= root` is reachable from `root`
/// and has `j` as an operand.
pub open spec fn consumed(nodes: Seq<Node>, root: int, j: int, lo: int) -> bool
    decreases root - j, root + 1 - lo,
{
    if j < 0 || j >= root {
        false
    } else if lo <= j {
        consumed(nodes, root, j, j + 1)
    } else if lo > root {
        false
    } else {
        (reach(nodes, root, lo) && operand_count(nodes[lo].op, j) > 0) || consumed(
            nodes,
            root,
            j,
            lo + 1,
        )
    }
}

/// The gradient of node `j` once a backward pass from `root` has run on
/// gradients `old`: the root is seeded with one, every other node below the
/// root adds what each reachable consumer hands it, and nodes above the root
/// keep their gradient.
pub open spec fn grad_after(nodes: Seq<Node>, old: Seq<u64>, root: int, j: int) -> int
    decreases root - j, root + 1 - j,
{
    if j == root {
        1
    } else if j < 0 || j > root {
        old[j] as int
    } else {
        old[j] + inflow(nodes, old, root, j, j + 1)
    }
}

/// What the reachable consumers of `j` with index in `max(lo, j + 1) ..= root`
/// hand to `j` during a backward pass from `root`.
pub open spec fn inflow(nodes: Seq<Node>, old: Seq<u64>, root: int, j: int, lo: int) -> int
    decreases root - j, root + 1 - lo,
{
    if j < 0 || j >= root {
        0
    } else if lo <= j {
        inflow(nodes, old, root, j, j + 1)
    } else if lo > root {
        0
    } else {
        (if reach(nodes, root, lo) {
            weighted(nodes[lo].op, j, grad_after(nodes, old, root, lo))
        } else {
            0
        }) + inflow(nodes, old, root, j, lo + 1)
    }
}

/// Every gradient that a backward pass from `root` produces fits in a `u64`.
pub open spec fn grads_fit(nodes: Seq<Node>, old: Seq<u64>, root: int) -> bool {
    forall|j: int| 0 <= j < nodes.len() ==> #[trigger] grad_after(nodes, old, root, j) <= u64::MAX
}

/// The indices reachable from `root` among `0 .. hi`, in increasing order.
pub open spec fn reachable_below(nodes: Seq<Node>, root: int, hi: int) -> Seq<int>
    decreases hi,
{
    if hi <= 0 {
        Seq::empty()
    } else if reach(nodes, root, hi - 1) {
        reachable_below(nodes, root, hi - 1).push(hi - 1)
    } else {
        reachable_below(nodes, root, hi - 1)
    }
}

/// Gradients after a backward pass are never negative.
pub proof fn lemma_grad_nonneg(nodes: Seq<Node>, old: Seq<u64>, root: int, j: int)
    ensures
        grad_after(nodes, old, root, j) >= 0,
    decreases root - j, root + 2 - j,
{
    if 0 <= j < root {
        lemma_inflow_nonneg(nodes, old, root, j, j + 1);
    }
}

/// What consumers hand a node is never negative.
pub proof fn lemma_inflow_nonneg(nodes: Seq<Node>, old: Seq<u64>, root: int, j: int, lo: int)
    ensures
        inflow(nodes, old, root, j, lo) >= 0,
    decreases root - j, root + 1 - lo,
{
    if j < 0 || j >= root {
    } else if lo <= j {
        lemma_inflow_nonneg(nodes, old, root, j, j + 1);
    } else if lo > root {
    } else {
        lemma_grad_nonneg(nodes, old, root, lo);
        lemma_inflow_nonneg(nodes, old, root, j, lo + 1);
    }
}

/// Consumers further from `j` hand it no more than all of them do.
pub proof fn lemma_inflow_mono(nodes: Seq<Node>, old: Seq<u64>, root: int, j: int, lo: int)
    requires
        j < lo,
    ensures
        inflow(nodes, old, root, j, lo) <= inflow(nodes, old, root, j, j + 1),
    decreases lo - j,
{
    if lo > j + 1 {
        lemma_inflow_mono(nodes, old, root, j, lo - 1);
        lemma_inflow_nonneg(nodes, old, root, j, lo);
        lemma_grad_nonneg(nodes, old, root, lo - 1);
    }
}

/// A node that a reachable node uses as an operand is reachable too.
pub proof fn lemma_operand_reachable(nodes: Seq<Node>, root: int, k: int, j: int)
    requires
        0 <= j < k,
        reach(nodes, root, k),
        operand_count(nodes[k].op, j) > 0,
    ensures
        reach(nodes, root, j),
{
    lemma_consumed_from(nodes, root, k, j, j + 1);
}

proof fn lemma_consumed_from(nodes: Seq<Node>, root: int, k: int, j: int, lo: int)
    requires
        0 <= j < lo <= k,
        reach(nodes, root, k),
        operand_count(nodes[k].op, j) > 0,
    ensures
        consumed(nodes, root, j, lo),
    decreases k - lo,
{
    if lo < k {
        lemma_consumed_from(nodes, root, k, j, lo + 1);
    }
}

/// The reachable indices below `hi` are listed in increasing order, and
/// exactly those are listed.
pub proof fn lemma_reachable_below(nodes: Seq<Node>, root: int, hi: int)
    ensures
        forall|a: int, b: int|
            0 <= a < b < reachable_below(nodes, root, hi).len() ==> reachable_below(nodes, root, hi)[a]
                < reachable_below(nodes, root, hi)[b],
        forall|t: int|
            0 <= t < reachable_below(nodes, root, hi).len() ==> 0 <= #[trigger] reachable_below(
                nodes,
                root,
                hi,
            )[t] < hi && reach(nodes, root, reachable_below(nodes, root, hi)[t]),
        forall|j: int|
            0 <= j < hi && reach(nodes, root, j) ==> reachable_below(nodes, root, hi).contains(j),
    decreases hi,
{
    if hi > 0 {
        lemma_reachable_below(nodes, root, hi - 1);
        let p = reachable_below(nodes, root, hi - 1);
        let s = reachable_below(nodes, root, hi);
        if reach(nodes, root, hi - 1) {
            assert forall|j: int| 0 <= j < hi && reach(nodes, root, j) implies s.contains(j) by {
                if j < hi - 1 {
                    let t = choose|t: int| 0 <= t < p.len() && p[t] == j;
                    assert(s[t] == j);
                } else {
                    assert(s[p.len() as int] == j);
                }
            }
        }
    }
}

/// The order that a sequencer returns is topological: every operand of a
/// listed node is listed strictly before it, and every node that the root
/// depends on is listed exactly once.
pub proof fn lemma_order_topological(nodes: Seq<Node>, root: int)
    requires
        0 <= root < nodes.len(),
        forall|i: int| 0 <= i < nodes.len() ==> operands_below(#[trigger] nodes[i].op, i),
    ensures
        ({
            let s = reachable_below(nodes, root, root + 1);
            &&& forall|j: int| 0 <= j <= root ==> (s.contains(j) <==> reach(nodes, root, j))
            &&& forall|a: int, b: int| 0 <= a < b < s.len() ==> s[a] != s[b]
            &&& forall|t: int, j: int|
                0 <= t < s.len() && 0 <= j && operand_count(nodes[s[t]].op, j) > 0 ==> exists|u: int|
                    0 <= u < t && s[u] == j
        }),
{
    let s = reachable_below(nodes, root, root + 1);
    lemma_reachable_below(nodes, root, root + 1);
    assert forall|t: int, j: int|
        0 <= t < s.len() && 0 <= j && operand_count(nodes[s[t]].op, j) > 0 implies exists|u: int|
        0 <= u < t && s[u] == j by {
        let k = s[t];
        assert(0 <= k < root + 1 && reach(nodes, root, k));
        assert(operands_below(nodes[k].op, k));
        assert(j < k);
        lemma_operand_reachable(nodes, root, k, j);
        let u = choose|u: int| 0 <= u < s.len() && s[u] == j;
        if u >= t {
            if u > t {
                assert(s[t] < s[u]);
            }
        }
        assert(0 <= u < t && s[u] == j);
    }
    assert forall|j: int| 0 <= j <= root implies (s.contains(j) <==> reach(nodes, root, j)) by {
        if s.contains(j) {
            let t = choose|t: int| 0 <= t < s.len() && s[t] == j;
            assert(reach(nodes, root, s[t]));
        }
    }
}

proof fn lemma_sum_of_leaves_reach(nodes: Seq<Node>, c: int, a: usize, b: usize, k: int)
    requires
        0 <= k < c < nodes.len(),
        nodes[c].op == Op::Add(a, b),
        nodes[a as int].op == Op::Leaf,
        nodes[b as int].op == Op::Leaf,
        reach(nodes, c, k),
    ensures
        k == a || k == b,
    decreases c - k, c + 1 - k,
{
    lemma_sum_of_leaves_consumed(nodes, c, a, b, k, k + 1);
}

proof fn lemma_sum_of_leaves_consumed(nodes: Seq<Node>, c: int, a: usize, b: usize, k: int, lo: int)
    requires
        0 <= k < lo,
        k < c < nodes.len(),
        nodes[c].op == Op::Add(a, b),
        nodes[a as int].op == Op::Leaf,
        nodes[b as int].op == Op::Leaf,
        consumed(nodes, c, k, lo),
    ensures
        k == a || k == b,
    decreases c - k, c + 1 - lo,
{
    if lo < c {
        if reach(nodes, c, lo) && operand_count(nodes[lo].op, k) > 0 {
            lemma_sum_of_leaves_reach(nodes, c, a, b, lo);
            assert(nodes[lo].op == Op::Leaf);
        } else {
            lemma_sum_of_leaves_consumed(nodes, c, a, b, k, lo + 1);
        }
    } else {
        assert(lo == c);
        assert(consumed(nodes, c, k, c + 1) == false);
        assert(operand_count(nodes[c].op, k) > 0);
    }
}

proof fn lemma_sum_of_leaves_inflow(
    nodes: Seq<Node>,
    old: Seq<u64>,
    c: int,
    a: usize,
    b: usize,
    x: int,
    lo: int,
)
    requires
        c < nodes.len(),
        nodes[c].op == Op::Add(a, b),
        a != b,
        a < c && b < c,
        nodes[a as int].op == Op::Leaf,
        nodes[b as int].op == Op::Leaf,
        x == a || x == b,
        x < lo <= c + 1,
    ensures
        inflow(nodes, old, c, x, lo) == if lo <= c { 1int } else { 0int },
    decreases c + 1 - lo,
{
    if lo <= c {
        lemma_sum_of_leaves_inflow(nodes, old, c, a, b, x, lo + 1);
        if lo < c && reach(nodes, c, lo) {
            lemma_sum_of_leaves_reach(nodes, c, a, b, lo);
            assert(nodes[lo].op == Op::Leaf);
        }
        if lo == c {
            assert(grad_after(nodes, old, c, c) == 1);
            assert(reach(nodes, c, c));
            assert(weighted(nodes[c].op, x, 1) == 1);
        }
    }
}

/// A sum of two distinct leaves hands each of them a gradient of exactly one:
/// after a backward pass from `c = a + b`, a leaf whose gradient was zero
/// holds one.
pub proof fn lemma_add_gradients(nodes: Seq<Node>, old: Seq<u64>, c: int, a: usize, b: usize)
    requires
        0 <= c < nodes.len(),
        forall|i: int| 0 <= i < nodes.len() ==> operands_below(#[trigger] nodes[i].op, i),
        nodes[c].op == Op::Add(a, b),
        a != b,
        nodes[a as int].op == Op::Leaf,
        nodes[b as int].op == Op::Leaf,
        old[a as int] == 0,
        old[b as int] == 0,
    ensures
        grad_after(nodes, old, c, a as int) == 1,
        grad_after(nodes, old, c, b as int) == 1,
{
    assert(operands_below(nodes[c].op, c));
    lemma_sum_of_leaves_inflow(nodes, old, c, a, b, a as int, a + 1);
    lemma_sum_of_leaves_inflow(nodes, old, c, a, b, b as int, b + 1);
}

/// The backward pass seeds its root: the root's gradient is one afterwards.
pub proof fn lemma_root_seeded(nodes: Seq<Node>, old: Seq<u64>, root: int)
    ensures
        grad_after(nodes, old, root, root) == 1,
{
}

/// Two backward passes from the same root over gradients that were reset to
/// zero produce the same gradients.
pub proof fn lemma_backward_after_reset(nodes: Seq<Node>, g1: Seq<u64>, g2: Seq<u64>, root: int)
    requires
        g1.len() == g2.len(),
        forall|j: int| 0 <= j < g1.len() ==> g1[j] == 0,
        forall|j: int| 0 <= j < g2.len() ==> g2[j] == 0,
    ensures
        forall|j: int| grad_after(nodes, g1, root, j) == grad_after(nodes, g2, root, j),
{
    assert(g1 =~= g2);
}

} // verus!
