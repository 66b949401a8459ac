//! Sessions: building the computation graph and reading it back.

use crate::chain::{
    consumed, grad_after, grads_fit, inflow, lemma_grad_nonneg, lemma_inflow_mono,
    lemma_inflow_nonneg, reach, reachable_below,
};
use crate::arena::{arena_get, arena_len, arena_new, arena_nodes, arena_push, Node, Op};
use append_only_vec::AppendOnlyVec;
use std::collections::hash_map::RandomState;
use vstd::prelude::*;

verus! {

/// What can go wrong when a handle or an operation is misused.
#[derive(Clone, Copy, Debug, PartialEq, Eq, Structural)]
pub enum GradError {
    /// The handle does not resolve within the queried session.
    NodeNotFound,
    /// The operands of an operation belong to different sessions.
    CrossSessionOperation,
    /// A value does not fit in the scalar type.
    Overflow,
}

/// An opaque handle to a node: the tag of its session and its arena index.
#[derive(Clone, Copy, Debug, PartialEq, Eq, Structural)]
pub struct NodeId {
    pub session: u64,
    pub index: usize,
}

/// A read-only view of one node.
#[derive(Clone, Copy, Debug, PartialEq, Eq, Structural)]
pub struct Value {
    pub data: i64,
    pub grad: u64,
    pub op: Op,
}

/// An arena of nodes together with their gradients.
pub struct Session {
    tag: u64,
    nodes: AppendOnlyVec<Node>,
    grads: Vec<u64>,
}

/// Every operand of every node was created before it, and every sum node
/// holds the sum of its operands' data.
pub open spec fn graph_wf(nodes: Seq<Node>) -> bool {
    forall|i: int|
        0 <= i < nodes.len() ==> {
            &&& crate::arena::operands_below(#[trigger] nodes[i].op, i)
            &&& match nodes[i].op {
                Op::Leaf => true,
                Op::Add(l, r) => nodes[i].data == nodes[l as int].data + nodes[r as int].data,
            }
        }
}

/// Relies on `RandomState::new`: fresh hash keys on each call. Nothing is
/// promised of them.
#[verifier::external_body]
fn fresh_hash_state() -> (r: RandomState) {
    RandomState::new()
}

/// Relies on `BuildHasher::hash_one`: a hash of a fixed byte under the given
/// keys. Nothing is promised of its value.
#[verifier::external_body]
fn hash_of_keys(s: &RandomState) -> (r: u64) {
    std::hash::BuildHasher::hash_one(s, 0u8)
}

/// Unwraps an option that the caller knows to hold a value.
pub fn get_or_fail<T>(a: Option<T>) -> (r: T)
    requires
        a is Some,
    ensures
        a == Some(r),
{
    match a {
        Some(x) => x,
        None => vstd::pervasive::unreached(),
    }
}

impl Session {
    /// The tag that every handle of this session carries.
    pub closed spec fn tag(&self) -> u64 {
        self.tag
    }

    /// The node records, in creation order.
    pub closed spec fn nodes(&self) -> Seq<Node> {
        arena_nodes(self.nodes)
    }

    /// The gradient of each node, by index.
    pub closed spec fn grads(&self) -> Seq<u64> {
        self.grads@
    }

    /// Gradients and nodes line up one for one, and the graph is well formed.
    pub closed spec fn wf(&self) -> bool {
        &&& self.grads@.len() == arena_nodes(self.nodes).len()
        &&& graph_wf(arena_nodes(self.nodes))
    }

    /// `h` resolves within this session.
    pub open spec fn owns(&self, h: NodeId) -> bool {
        h.session == self.tag() && h.index < self.nodes().len()
    }

    /// A session with the given tag and no nodes.
    pub fn with_tag(tag: u64) -> (s: Session)
        ensures
            s.wf(),
            s.tag() == tag,
            s.nodes().len() == 0,
    {
        Session { tag, nodes: arena_new(), grads: Vec::new() }
    }

    /// A new, empty session, whose tag is drawn at random so that handles of
    /// distinct sessions can be told apart.
    pub fn start() -> (s: Session)
        ensures
            s.wf(),
            s.nodes().len() == 0,
    {
        let keys = fresh_hash_state();
        Session::with_tag(hash_of_keys(&keys))
    }

    fn insert_node(&mut self, n: Node) -> (h: NodeId)
        requires
            old(self).wf(),
            graph_wf(old(self).nodes().push(n)),
        ensures
            final(self).wf(),
            final(self).tag() == old(self).tag(),
            final(self).nodes() == old(self).nodes().push(n),
            final(self).grads() == old(self).grads().push(0),
            h == (NodeId { session: old(self).tag(), index: old(self).nodes().len() as usize }),
    {
        let index = arena_push(&mut self.nodes, n);
        self.grads.push(0);
        NodeId { session: self.tag, index }
    }

    /// Creates a leaf node holding `data`, with gradient zero.
    pub fn value(&mut self, data: i64) -> (h: NodeId)
        requires
            old(self).wf(),
        ensures
            final(self).wf(),
            final(self).tag() == old(self).tag(),
            final(self).nodes() == old(self).nodes().push(Node { data, op: Op::Leaf }),
            final(self).grads() == old(self).grads().push(0),
            h == (NodeId { session: old(self).tag(), index: old(self).nodes().len() as usize }),
    {
        let n = Node { data, op: Op::Leaf };
        proof {
            let s = self.nodes().push(n);
            assert forall|i: int| 0 <= i < s.len() implies crate::arena::operands_below(
                #[trigger] s[i].op,
                i,
            ) && match s[i].op {
                Op::Leaf => true,
                Op::Add(l, r) => s[i].data == s[l as int].data + s[r as int].data,
            } by {
                if i < self.nodes().len() {
                    assert(s[i] == self.nodes()[i]);
                }
            }
        }
        self.insert_node(n)
    }

    /// The current view of the node behind `h`.
    pub fn lookup(&self, h: NodeId) -> (r: Result<Value, GradError>)
        requires
            self.wf(),
        ensures
            r is Err <==> !self.owns(h),
            r is Err ==> r == Err::<Value, GradError>(GradError::NodeNotFound),
            r matches Ok(v) ==> v == (Value {
                data: self.nodes()[h.index as int].data,
                grad: self.grads()[h.index as int],
                op: self.nodes()[h.index as int].op,
            }),
    {
        if h.session != self.tag || h.index >= arena_len(&self.nodes) {
            return Err(GradError::NodeNotFound);
        }
        let n = arena_get(&self.nodes, h.index);
        Ok(Value { data: n.data, grad: self.grads[h.index], op: n.op })
    }

    /// The forward value of the node behind `h`.
    pub fn data(&self, h: NodeId) -> (r: Result<i64, GradError>)
        requires
            self.wf(),
        ensures
            r is Err <==> !self.owns(h),
            r is Err ==> r == Err::<i64, GradError>(GradError::NodeNotFound),
            r matches Ok(d) ==> d == self.nodes()[h.index as int].data,
    {
        match self.lookup(h) {
            Ok(v) => Ok(v.data),
            Err(e) => Err(e),
        }
    }

    /// The gradient of the node behind `h`.
    pub fn grad(&self, h: NodeId) -> (r: Result<u64, GradError>)
        requires
            self.wf(),
        ensures
            r is Err <==> !self.owns(h),
            r is Err ==> r == Err::<u64, GradError>(GradError::NodeNotFound),
            r matches Ok(g) ==> g == self.grads()[h.index as int],
    {
        match self.lookup(h) {
            Ok(v) => Ok(v.grad),
            Err(e) => Err(e),
        }
    }

    /// Overwrites the gradient of the node behind `h` with `g`.
    pub fn set_grad(&mut self, h: NodeId, g: u64) -> (r: Result<(), GradError>)
        requires
            old(self).wf(),
        ensures
            final(self).wf(),
            final(self).tag() == old(self).tag(),
            final(self).nodes() == old(self).nodes(),
            r is Err <==> !old(self).owns(h),
            r is Err ==> r == Err::<(), GradError>(GradError::NodeNotFound) && final(self).grads()
                == old(self).grads(),
            r is Ok ==> final(self).grads() == old(self).grads().update(h.index as int, g),
    {
        if h.session != self.tag || h.index >= arena_len(&self.nodes) {
            return Err(GradError::NodeNotFound);
        }
        self.grads.set(h.index, g);
        Ok(())
    }

    /// Adds `delta` to the gradient of the node behind `h`.
    pub fn add_grad(&mut self, h: NodeId, delta: u64) -> (r: Result<(), GradError>)
        requires
            old(self).wf(),
        ensures
            final(self).wf(),
            final(self).tag() == old(self).tag(),
            final(self).nodes() == old(self).nodes(),
            r == Err::<(), GradError>(GradError::NodeNotFound) <==> !old(self).owns(h),
            old(self).owns(h) ==> (r == Err::<(), GradError>(GradError::Overflow) <==> old(
                self,
            ).grads()[h.index as int] + delta > u64::MAX),
            r is Err ==> final(self).grads() == old(self).grads(),
            r is Ok ==> final(self).grads() == old(self).grads().update(
                h.index as int,
                (old(self).grads()[h.index as int] + delta) as u64,
            ),
    {
        if h.session != self.tag || h.index >= arena_len(&self.nodes) {
            return Err(GradError::NodeNotFound);
        }
        let g = self.grads[h.index];
        if g > u64::MAX - delta {
            return Err(GradError::Overflow);
        }
        self.grads.set(h.index, g + delta);
        Ok(())
    }

    /// Marks the nodes that `root` depends on: entry `j` tells whether node
    /// `j` is reachable from `root`.
    fn reach_mask(&self, root: usize) -> (m: Vec<bool>)
        requires
            self.wf(),
            root < self.nodes().len(),
        ensures
            m@.len() == root + 1,
            forall|j: int| 0 <= j <= root ==> m@[j] == reach(self.nodes(), root as int, j),
    {
        let ghost nodes = self.nodes();
        let len = arena_len(&self.nodes);
        assert(root + 1 <= len);
        let mut m: Vec<bool> = Vec::new();
        let mut i: usize = 0;
        while i < root
            invariant
                i <= root,
                m@.len() == i,
                forall|j: int| 0 <= j < i ==> !m@[j],
            decreases root - i,
        {
            m.push(false);
            i = i + 1;
        }
        m.push(true);
        let mut k: usize = root + 1;
        while k > 0
            invariant
                self.wf(),
                nodes == self.nodes(),
                root < nodes.len(),
                k <= root + 1,
                m@.len() == root + 1,
                forall|j: int|
                    0 <= j <= root ==> m@[j] == (j == root || consumed(nodes, root as int, j, k as int)),
            decreases k,
        {
            k = k - 1;
            assert(m@[k as int] == reach(nodes, root as int, k as int));
            let op = if m[k] {
                arena_get(&self.nodes, k).op
            } else {
                Op::Leaf
            };
            assert(crate::arena::operands_below(nodes[k as int].op, k as int));
            if let Op::Add(l, r) = op {
                m.set(l, true);
                m.set(r, true);
            }
            assert forall|j: int| 0 <= j <= root implies m@[j] == (j == root || consumed(
                nodes,
                root as int,
                j,
                k as int,
            )) by {
                if j >= k {
                    assert(consumed(nodes, root as int, j, k as int) == consumed(nodes, root as int, j, k + 1));
                }
            }
        }
        m
    }

    /// Resets every gradient to zero.
    pub fn zero_grad(&mut self)
        requires
            old(self).wf(),
        ensures
            final(self).wf(),
            final(self).tag() == old(self).tag(),
            final(self).nodes() == old(self).nodes(),
            final(self).grads().len() == old(self).grads().len(),
            forall|j: int| 0 <= j < final(self).grads().len() ==> final(self).grads()[j] == 0,
    {
        let n = self.grads.len();
        let mut i: usize = 0;
        while i < n
            invariant
                i <= n,
                self.grads@.len() == n,
                self.wf(),
                self.tag() == old(self).tag(),
                self.nodes() == old(self).nodes(),
                forall|j: int| 0 <= j < i ==> self.grads@[j] == 0,
            decreases n - i,
        {
            self.grads.set(i, 0);
            i = i + 1;
        }
    }

    /// The nodes that `root` depends on, itself included, each once and in
    /// creation order, so that every operand comes before the nodes that use
    /// it.
    pub fn order(&self, root: NodeId) -> (r: Result<Vec<NodeId>, GradError>)
        requires
            self.wf(),
        ensures
            r is Err <==> !self.owns(root),
            r is Err ==> r == Err::<Vec<NodeId>, GradError>(GradError::NodeNotFound),
            r matches Ok(v) ==> {
                let s = reachable_below(self.nodes(), root.index as int, root.index + 1);
                &&& v@.len() == s.len()
                &&& forall|t: int|
                    0 <= t < v@.len() ==> #[trigger] v@[t] == (NodeId { session: self.tag(), index: s[t] as usize })
            },
    {
        if root.session != self.tag || root.index >= arena_len(&self.nodes) {
            return Err(GradError::NodeNotFound);
        }
        let ghost nodes = self.nodes();
        let ri = root.index;
        let mask = self.reach_mask(ri);
        let mut v: Vec<NodeId> = Vec::new();
        let mut i: usize = 0;
        while i <= ri
            invariant
                ri < nodes.len(),
                nodes.len() <= usize::MAX,
                i <= ri + 1,
                mask@.len() == ri + 1,
                forall|j: int| 0 <= j <= ri ==> mask@[j] == reach(nodes, ri as int, j),
                v@.len() == reachable_below(nodes, ri as int, i as int).len(),
                forall|t: int|
                    0 <= t < v@.len() ==> #[trigger] v@[t] == (NodeId {
                        session: self.tag(),
                        index: reachable_below(nodes, ri as int, i as int)[t] as usize,
                    }),
            decreases ri + 1 - i,
        {
            if mask[i] {
                v.push(NodeId { session: self.tag, index: i });
            }
            i = i + 1;
        }
        Ok(v)
    }

    /// Runs the backward pass from `root`: seeds its gradient with one, then
    /// visits the nodes it depends on from the root towards the leaves, each
    /// adding its gradient to its operands' once per operand slot.
    pub fn backward(&mut self, root: NodeId) -> (r: Result<(), GradError>)
        requires
            old(self).wf(),
        ensures
            final(self).wf(),
            final(self).tag() == old(self).tag(),
            final(self).nodes() == old(self).nodes(),
            r == Err::<(), GradError>(GradError::NodeNotFound) <==> !old(self).owns(root),
            old(self).owns(root) ==> (r is Ok <==> grads_fit(
                old(self).nodes(),
                old(self).grads(),
                root.index as int,
            )),
            r is Err ==> final(self).grads() == old(self).grads(),
            r is Ok ==> final(self).grads()[root.index as int] == 1,
            r is Ok ==> final(self).grads().len() == old(self).grads().len() && forall|j: int|
                0 <= j < final(self).grads().len() ==> #[trigger] final(self).grads()[j] == grad_after(
                    old(self).nodes(),
                    old(self).grads(),
                    root.index as int,
                    j,
                ),
    {
        if root.session != self.tag || root.index >= arena_len(&self.nodes) {
            return Err(GradError::NodeNotFound);
        }
        let ghost nodes = self.nodes();
        let ghost start = self.grads@;
        let ri = root.index;
        let mask = self.reach_mask(ri);
        let mut work: Vec<u64> = Vec::new();
        let mut i: usize = 0;
        while i < self.grads.len()
            invariant
                i <= start.len(),
                self.grads@ == start,
                work@ == start.subrange(0, i as int),
            decreases start.len() - i,
        {
            work.push(self.grads[i]);
            i = i + 1;
        }
        assert(work@ == start);
        work.set(ri, 1);
        let mut k: usize = ri + 1;
        while k > 0
            invariant
                self.wf(),
                nodes == self.nodes(),
                start == self.grads@,
                nodes == old(self).nodes(),
                start == old(self).grads(),
                self.tag() == old(self).tag(),
                root.session == self.tag(),
                ri == root.index,
                start.len() == nodes.len(),
                ri < nodes.len(),
                k <= ri + 1,
                mask@.len() == ri + 1,
                forall|j: int| 0 <= j <= ri ==> mask@[j] == reach(nodes, ri as int, j),
                work@.len() == start.len(),
                work@[ri as int] == 1,
                forall|j: int| ri < j < start.len() ==> work@[j] == start[j],
                forall|j: int|
                    0 <= j < ri ==> work@[j] == start[j] + inflow(nodes, start, ri as int, j, k as int),
            decreases k,
        {
            k = k - 1;
            let ghost gk = grad_after(nodes, start, ri as int, k as int);
            assert(work@[k as int] == gk);
            proof {
                lemma_grad_nonneg(nodes, start, ri as int, k as int);
            }
            let op = if mask[k] {
                arena_get(&self.nodes, k).op
            } else {
                Op::Leaf
            };
            assert(crate::arena::operands_below(nodes[k as int].op, k as int));
            if let Op::Add(l, r) = op {
                let g = work[k];
                let a = work[l];
                proof {
                    lemma_inflow_mono(nodes, start, ri as int, l as int, k as int);
                    lemma_inflow_nonneg(nodes, start, ri as int, l as int, k as int + 1);
                }
                if a > u64::MAX - g {
                    assert(grad_after(nodes, start, ri as int, l as int) > u64::MAX);
                    return Err(GradError::Overflow);
                }
                work.set(l, a + g);
                let b = work[r];
                proof {
                    lemma_inflow_mono(nodes, start, ri as int, r as int, k as int);
                    lemma_inflow_nonneg(nodes, start, ri as int, r as int, k as int + 1);
                }
                if b > u64::MAX - g {
                    assert(grad_after(nodes, start, ri as int, r as int) > u64::MAX);
                    return Err(GradError::Overflow);
                }
                work.set(r, b + g);
            }
            assert forall|j: int| 0 <= j < ri implies work@[j] == start[j] + inflow(
                nodes,
                start,
                ri as int,
                j,
                k as int,
            ) by {
                if j >= k {
                    assert(inflow(nodes, start, ri as int, j, k as int) == inflow(
                        nodes,
                        start,
                        ri as int,
                        j,
                        k + 1,
                    ));
                }
            }
        }
        assert forall|j: int| 0 <= j < work@.len() implies #[trigger] work@[j] == grad_after(
            nodes,
            start,
            ri as int,
            j,
        ) by {
            if j < ri {
                assert(inflow(nodes, start, ri as int, j, 0) == inflow(nodes, start, ri as int, j, j + 1));
            }
        }
        assert(grads_fit(nodes, start, ri as int)) by {
            assert forall|j: int| 0 <= j < nodes.len() implies #[trigger] grad_after(
                nodes,
                start,
                ri as int,
                j,
            ) <= u64::MAX by {
                assert(work@[j] == grad_after(nodes, start, ri as int, j));
            }
        }
        self.grads = work;
        Ok(())
    }
}

/// Adds the nodes behind `a` and `b`, recording a new sum node in their
/// session.
pub fn add(session: &mut Session, a: NodeId, b: NodeId) -> (r: Result<NodeId, GradError>)
    requires
        old(session).wf(),
    ensures
        final(session).wf(),
        final(session).tag() == old(session).tag(),
        a.session != b.session ==> r == Err::<NodeId, GradError>(GradError::CrossSessionOperation),
        a.session == b.session && a.session != old(session).tag() ==> r == Err::<NodeId, GradError>(
            GradError::CrossSessionOperation,
        ),
        a.session == b.session && a.session == old(session).tag() && !(old(session).owns(a)
            && old(session).owns(b)) ==> r == Err::<NodeId, GradError>(GradError::NodeNotFound),
        old(session).owns(a) && old(session).owns(b) ==> {
            let sum = old(session).nodes()[a.index as int].data + old(session).nodes()[b.index as int].data;
            &&& (i64::MIN <= sum <= i64::MAX) ==> r == Ok::<NodeId, GradError>(
                NodeId { session: old(session).tag(), index: old(session).nodes().len() as usize },
            ) && final(session).nodes() == old(session).nodes().push(
                Node { data: sum as i64, op: Op::Add(a.index, b.index) },
            ) && final(session).grads() == old(session).grads().push(0)
            &&& !(i64::MIN <= sum <= i64::MAX) ==> r == Err::<NodeId, GradError>(GradError::Overflow)
        },
        r is Err ==> final(session).nodes() == old(session).nodes() && final(session).grads()
            == old(session).grads(),
{
    if a.session != b.session || a.session != session.tag {
        return Err(GradError::CrossSessionOperation);
    }
    let len = arena_len(&session.nodes);
    if a.index >= len || b.index >= len {
        return Err(GradError::NodeNotFound);
    }
    let x = arena_get(&session.nodes, a.index);
    let y = arena_get(&session.nodes, b.index);
    let sum: i128 = x.data as i128 + y.data as i128;
    if sum < i64::MIN as i128 || sum > i64::MAX as i128 {
        return Err(GradError::Overflow);
    }
    let n = Node { data: sum as i64, op: Op::Add(a.index, b.index) };
    proof {
        let s = session.nodes().push(n);
        assert forall|i: int| 0 <= i < s.len() implies crate::arena::operands_below(
            #[trigger] s[i].op,
            i,
        ) && match s[i].op {
            Op::Leaf => true,
            Op::Add(l, r) => s[i].data == s[l as int].data + s[r as int].data,
        } by {
            if i < session.nodes().len() {
                assert(s[i] == session.nodes()[i]);
                let op = s[i].op;
                if let Op::Add(l, r) = op {
                    assert(crate::arena::operands_below(session.nodes()[i].op, i));
                    assert(s[l as int] == session.nodes()[l as int]);
                    assert(s[r as int] == session.nodes()[r as int]);
                }
            }
        }
    }
    Ok(session.insert_node(n))
}

} // verus!
