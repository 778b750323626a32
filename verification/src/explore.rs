//! Building the graph of reachable states, breadth first.

use crate::bits::Bits;
use crate::bitvec::BitVec;
use crate::compiler::{
    lemma_click_keeps_clear, lemma_clicked_is_click, lemma_leading_is_shape, lemma_leading_prefix,
    lemma_subsumes_itself, lemma_through_keeps_clear, lists_leading, Context, State, StateView,
};
use crate::error::Error;
use crate::graph::{replay_in, Arena, Edge, Edges, Graph, Node, FORWARD_LIMIT};
use crate::ids::{indices, NodeId, ShapeId};
use std::collections::HashMap;
use std::collections::VecDeque;
use vstd::prelude::*;

verus! {

/// A node's state is stored whole when this many clicks separate it from the nearest
/// ancestor whose state is stored.
pub const CACHE_STRIDE: usize = 8;

/// The state in which the clicks on node `p` are recorded: that of the node, after the
/// clicks that it forces.
#[verifier::opaque]
pub open spec fn settled<T: Bits>(nodes: Seq<Node>, ctx: &Context<T>, p: int) -> StateView {
    replay_in(nodes, ctx, p).forwarded(ctx, FORWARD_LIMIT as nat)
}

/// The indices of the shapes ascend strictly.
pub open spec fn increasing(ids: Seq<ShapeId>) -> bool {
    forall|j: int, k: int| 0 <= j < k < ids.len() ==> ids[j].0 < ids[k].0
}

/// Node `id` was created well: its first edge comes from an older node, and it records
/// the clicks that the state of that node forces, and as found hidden, lowest index
/// first, the candidates that came before the clicked shape.
pub open spec fn created_ok<T: Bits>(nodes: Seq<Node>, ctx: &Context<T>, id: int) -> bool {
    let node = nodes[id];
    &&& node.from@.len() >= 1
    &&& node.from@[0].0.0 < id
    &&& node.from@[0].1.0 < ctx.n
    &&& indices(node.forced@) == replay_in(nodes, ctx, node.from@[0].0.0 as int).forced(
        ctx,
        FORWARD_LIMIT as nat,
    )
    &&& settled(nodes, ctx, node.from@[0].0.0 as int).cleared_before(
        node.from@[0].1.0 as int,
        indices(node.cleared@),
    )
    &&& increasing(node.cleared@)
    &&& forall|k: int| 0 <= k < node.cleared@.len() ==> (#[trigger] node.cleared@[k]).0 < ctx.n
    &&& forall|k: int| 0 <= k < node.forced@.len() ==> (#[trigger] node.forced@[k]).0 < ctx.n
}

/// There is a root, the identities fit, and every other node was created well.
pub open spec fn tree_ok<T: Bits>(nodes: Seq<Node>, ctx: &Context<T>) -> bool {
    &&& 1 <= nodes.len() <= u32::MAX
    &&& forall|id: int| 0 < id < nodes.len() ==> #[trigger] created_ok(nodes, ctx, id)
}

/// The edge `e` into node `m` is justified: it names a shape of the context, in the
/// settled state of its parent that shape is a candidate, and the state of `m` subsumes
/// the state that a click on it gives.
pub open spec fn edge_ok<T: Bits>(nodes: Seq<Node>, ctx: &Context<T>, m: int, e: Edge) -> bool {
    &&& e.0.0 < nodes.len()
    &&& e.1.0 < ctx.n
    &&& settled(nodes, ctx, e.0.0 as int).leading(e.1.0 as int)
    &&& replay_in(nodes, ctx, m).subsumes(
        settled(nodes, ctx, e.0.0 as int).click(ctx.actions_of(e.1.0 as int), e.1.0 as int),
    )
}

/// Every edge is justified.
pub open spec fn edges_ok<T: Bits>(nodes: Seq<Node>, ctx: &Context<T>) -> bool {
    forall|m: int, k: int|
        0 <= m < nodes.len() && 0 <= k < nodes[m].from@.len() ==> edge_ok(
            nodes,
            ctx,
            m,
            #[trigger] nodes[m].from@[k],
        )
}

/// Some node records a click on shape `s` in node `p`.
pub open spec fn has_edge(nodes: Seq<Node>, p: int, s: int) -> bool {
    exists|m: int, k: int|
        0 <= m < nodes.len() && 0 <= k < nodes[m].from@.len() && (#[trigger] nodes[m].from@[k]).0.0 == p
            && nodes[m].from@[k].1.0 == s
}

/// Every click that is possible in the settled state of node `p` is recorded by an edge.
pub open spec fn expanded<T: Bits>(nodes: Seq<Node>, ctx: &Context<T>, p: int) -> bool {
    forall|s: int| #[trigger] settled(nodes, ctx, p).leading(s) ==> has_edge(nodes, p, s)
}

/// `b` has the nodes of `a`, each with the edges it had and maybe more, and maybe more
/// nodes.
pub open spec fn extends(a: Seq<Node>, b: Seq<Node>) -> bool {
    &&& a.len() <= b.len()
    &&& forall|j: int|
        0 <= j < a.len() ==> a[j].from@.len() <= (#[trigger] b[j]).from@.len() && a[j].cleared@
            == b[j].cleared@ && a[j].forced@ == b[j].forced@
    &&& forall|j: int, k: int|
        0 <= j < a.len() && 0 <= k < a[j].from@.len() ==> #[trigger] b[j].from@[k] == a[j].from@[k]
}

/// Nodes and edges that are added later do not change the state of a node.
pub proof fn lemma_extends_replay<T: Bits>(a: Seq<Node>, b: Seq<Node>, ctx: &Context<T>, id: int)
    requires
        tree_ok(a, ctx),
        extends(a, b),
        0 <= id < a.len(),
    ensures
        replay_in(b, ctx, id) == replay_in(a, ctx, id),
    decreases id,
{
    if id > 0 {
        assert(created_ok(a, ctx, id));
        let e = a[id].from@[0];
        assert(b[id].from@[0] == e);
        assert(a[id].parent_edge(id) == Some(e));
        assert(b[id].parent_edge(id) == Some(e));
        lemma_extends_replay(a, b, ctx, e.0.0 as int);
    }
}

/// Nodes and edges that are added later change the state of no node.
pub proof fn lemma_extends_replays<T: Bits>(a: Seq<Node>, b: Seq<Node>, ctx: &Context<T>)
    requires
        tree_ok(a, ctx),
        extends(a, b),
    ensures
        forall|id: int| 0 <= id < a.len() ==> #[trigger] replay_in(b, ctx, id) == replay_in(a, ctx, id),
{
    assert forall|id: int| 0 <= id < a.len() implies #[trigger] replay_in(b, ctx, id) == replay_in(
        a,
        ctx,
        id,
    ) by {
        lemma_extends_replay(a, b, ctx, id);
    }
}

/// Nodes and edges that are added later change the settled state of no node.
pub proof fn lemma_extends_settled<T: Bits>(a: Seq<Node>, b: Seq<Node>, ctx: &Context<T>)
    requires
        tree_ok(a, ctx),
        extends(a, b),
    ensures
        forall|id: int| 0 <= id < a.len() ==> #[trigger] settled(b, ctx, id) == settled(a, ctx, id),
{
    reveal(settled);
    lemma_extends_replays(a, b, ctx);
}

/// A node that was expanded stays expanded when nodes and edges are added.
pub proof fn lemma_extends_expanded<T: Bits>(a: Seq<Node>, b: Seq<Node>, ctx: &Context<T>, p: int)
    requires
        tree_ok(a, ctx),
        extends(a, b),
        0 <= p < a.len(),
        expanded(a, ctx, p),
    ensures
        expanded(b, ctx, p),
{
    lemma_extends_settled(a, b, ctx);
    assert forall|s: int| #[trigger] settled(b, ctx, p).leading(s) implies has_edge(b, p, s) by {
        assert(settled(a, ctx, p).leading(s));
        lemma_extends_edge(a, b, p, s);
    }
}

/// An edge that is recorded stays recorded when nodes and edges are added.
pub proof fn lemma_extends_edge(a: Seq<Node>, b: Seq<Node>, p: int, s: int)
    requires
        extends(a, b),
        has_edge(a, p, s),
    ensures
        has_edge(b, p, s),
{
    let (m, k) = choose|m: int, k: int|
        0 <= m < a.len() && 0 <= k < a[m].from@.len() && (#[trigger] a[m].from@[k]).0.0 == p
            && a[m].from@[k].1.0 == s;
    assert(b[m].from@[k] == a[m].from@[k]);
}

/// With one node pushed for the click `e`, the nodes still form a tree, and the state of
/// the new node is what the click gives.
pub proof fn lemma_pushed_tree<T: Bits>(a: Seq<Node>, b: Seq<Node>, ctx: &Context<T>, e: Edge)
    requires
        ctx.wf(),
        tree_ok(a, ctx),
        extends(a, b),
        a.len() < u32::MAX,
        b.len() == a.len() + 1,
        b[a.len() as int].from@ == seq![e],
        e.0.0 < a.len(),
        settled(a, ctx, e.0.0 as int).leading(e.1.0 as int),
        indices(b[a.len() as int].forced@) == replay_in(a, ctx, e.0.0 as int).forced(
            ctx,
            FORWARD_LIMIT as nat,
        ),
        settled(a, ctx, e.0.0 as int).cleared_before(e.1.0 as int, indices(b[a.len() as int].cleared@)),
        increasing(b[a.len() as int].cleared@),
        forall|k: int|
            0 <= k < b[a.len() as int].cleared@.len() ==> (#[trigger] b[a.len() as int].cleared@[k]).0
                < ctx.n,
        forall|k: int|
            0 <= k < b[a.len() as int].forced@.len() ==> (#[trigger] b[a.len() as int].forced@[k]).0
                < ctx.n,
    ensures
        tree_ok(b, ctx),
        replay_in(b, ctx, a.len() as int) == settled(a, ctx, e.0.0 as int).click(
            ctx.actions_of(e.1.0 as int),
            e.1.0 as int,
        ),
{
    let id = a.len() as int;
    lemma_extends_replays(a, b, ctx);
    lemma_extends_settled(a, b, ctx);
    lemma_settled_len(a, ctx, e.0.0 as int);
    lemma_settled(b, ctx, e.0.0 as int);
    lemma_replay_clear(a, ctx, e.0.0 as int);
    lemma_leading_is_shape(settled(a, ctx, e.0.0 as int), ctx.n as nat, e.1.0 as int);
    assert(b[id].from@[0] == e);
    assert(b[id].parent_edge(id) == Some(e));
    assert(created_ok(b, ctx, id));
    assert forall|j: int| 0 < j < b.len() implies #[trigger] created_ok(b, ctx, j) by {
        if j < a.len() {
            assert(created_ok(a, ctx, j));
            assert(b[j].from@[0] == a[j].from@[0]);
            let parent = a[j].from@[0].0.0 as int;
            assert(replay_in(b, ctx, parent) == replay_in(a, ctx, parent));
            assert(settled(b, ctx, parent) == settled(a, ctx, parent));
        }
    }
}

/// With one node pushed for the click `e`, every edge is still justified.
pub proof fn lemma_pushed_edges<T: Bits>(a: Seq<Node>, b: Seq<Node>, ctx: &Context<T>, e: Edge)
    requires
        ctx.wf(),
        tree_ok(a, ctx),
        edges_ok(a, ctx),
        extends(a, b),
        b.len() == a.len() + 1,
        forall|j: int| 0 <= j < a.len() ==> b[j] == a[j],
        b[a.len() as int].from@ == seq![e],
        e.0.0 < a.len(),
        settled(a, ctx, e.0.0 as int).leading(e.1.0 as int),
        replay_in(b, ctx, a.len() as int) == settled(a, ctx, e.0.0 as int).click(
            ctx.actions_of(e.1.0 as int),
            e.1.0 as int,
        ),
    ensures
        edges_ok(b, ctx),
{
    let id = a.len() as int;
    assert forall|i: int, k: int| 0 <= i < b.len() && 0 <= k < b[i].from@.len() implies edge_ok(
        b,
        ctx,
        i,
        #[trigger] b[i].from@[k],
    ) by {
        let edge = b[i].from@[k];
        lemma_extends_settled(a, b, ctx);
        if i == id {
            assert(edge == e);
            assert(settled(b, ctx, e.0.0 as int) == settled(a, ctx, e.0.0 as int));
            lemma_replay_clear(a, ctx, e.0.0 as int);
            lemma_leading_is_shape(settled(a, ctx, e.0.0 as int), ctx.n as nat, e.1.0 as int);
            lemma_subsumes_itself(replay_in(b, ctx, id));
        } else {
            assert(b[i] == a[i]);
            assert(edge_ok(a, ctx, i, a[i].from@[k]));
            lemma_extends_replay(a, b, ctx, i);
            assert(settled(b, ctx, edge.0.0 as int) == settled(a, ctx, edge.0.0 as int));
        }
    }
}

/// The settled state of every node describes every position of the context.
pub proof fn lemma_settled_len<T: Bits>(nodes: Seq<Node>, ctx: &Context<T>, id: int)
    requires
        ctx.wf(),
    ensures
        settled(nodes, ctx, id).wf(),
        settled(nodes, ctx, id).len() == ctx.bits(),
{
    reveal(settled);
    lemma_replay_len(nodes, ctx, id);
}

/// The settled state of a node is its state after the clicks that it forces.
pub proof fn lemma_settled<T: Bits>(nodes: Seq<Node>, ctx: &Context<T>, id: int)
    ensures
        settled(nodes, ctx, id) == replay_in(nodes, ctx, id).forwarded(ctx, FORWARD_LIMIT as nat),
{
    reveal(settled);
}

/// The state of every node, and its settled state, are about the shapes of the context
/// only: nothing past the last shape is targeted, visible or unknown.
pub proof fn lemma_replay_clear<T: Bits>(nodes: Seq<Node>, ctx: &Context<T>, id: int)
    requires
        ctx.wf(),
    ensures
        replay_in(nodes, ctx, id).clear_past(ctx.n as nat),
        settled(nodes, ctx, id).clear_past(ctx.n as nat),
    decreases id,
{
    reveal(settled);
    lemma_replay_len(nodes, ctx, id);
    if 0 < id < nodes.len() {
        match nodes[id].parent_edge(id) {
            Some(e) => {
                if e.0.0 < id {
                    let p = replay_in(nodes, ctx, e.0.0 as int);
                    lemma_replay_clear(nodes, ctx, e.0.0 as int);
                    lemma_replay_len(nodes, ctx, e.0.0 as int);
                    lemma_through_keeps_clear(p, ctx, p.forced(ctx, FORWARD_LIMIT as nat));
                    lemma_click_keeps_clear(p.forwarded(ctx, FORWARD_LIMIT as nat), ctx, e.1.0 as int);
                }
            },
            None => {},
        }
    }
    let r = replay_in(nodes, ctx, id);
    lemma_through_keeps_clear(r, ctx, r.forced(ctx, FORWARD_LIMIT as nat));
}

/// The state of every node describes every position of the context.
pub proof fn lemma_replay_len<T: Bits>(nodes: Seq<Node>, ctx: &Context<T>, id: int)
    requires
        ctx.wf(),
    ensures
        replay_in(nodes, ctx, id).wf(),
        replay_in(nodes, ctx, id).len() == ctx.bits(),
    decreases id,
{
    if 0 < id < nodes.len() {
        match nodes[id].parent_edge(id) {
            Some(e) => {
                if e.0.0 < id {
                    lemma_replay_len(nodes, ctx, e.0.0 as int);
                }
            },
            None => {},
        }
    }
}

impl<T: Bits> Graph<T> {
    /// The graph is well formed for `ctx`: its nodes form a tree by their first edges, the
    /// states it stores are the states of their nodes, and the nodes it files exist.
    pub open spec fn wf(&self, ctx: &Context<T>) -> bool {
        &&& tree_ok(self.nodes@, ctx)
        &&& forall|k: u32| #[trigger]
            self.cache@.contains_key(k) ==> k < self.nodes@.len() && self.cache@[k].has_cap(
                ctx.cap as nat,
            ) && self.cache@[k]@ == self.replay(ctx, k as int)
        &&& forall|h: u64, j: int|
            0 <= j < self.bucket(h).len() ==> (#[trigger] self.bucket(h)[j]).0 < self.nodes@.len()
    }

    /// Every edge is justified: it records a click that is possible in the settled state
    /// of its parent, and leads to a node whose state subsumes what that click gives.
    pub open spec fn sound(&self, ctx: &Context<T>) -> bool {
        edges_ok(self.nodes@, ctx)
    }

    /// Every click that is possible in the settled state of some node is recorded by an
    /// edge.
    pub open spec fn closed(&self, ctx: &Context<T>) -> bool {
        forall|p: int| 0 <= p < self.nodes@.len() ==> #[trigger] expanded(self.nodes@, ctx, p)
    }

    /// In a graph whose edges are justified, every edge comes from a node of the graph and
    /// records a click on a shape of the context.
    pub proof fn lemma_edges_name_shapes(&self, ctx: &Context<T>)
        requires
            self.sound(ctx),
        ensures
            forall|m: int, k: int|
                0 <= m < self.nodes@.len() && 0 <= k < self.nodes@[m].from@.len() ==> (
                #[trigger] self.nodes@[m].from@[k]).0.0 < self.nodes@.len()
                    && self.nodes@[m].from@[k].1.0 < ctx.n,
    {
        assert forall|m: int, k: int|
            0 <= m < self.nodes@.len() && 0 <= k < self.nodes@[m].from@.len() implies (
        #[trigger] self.nodes@[m].from@[k]).0.0 < self.nodes@.len() && self.nodes@[m].from@[k].1.0
            < ctx.n by {
            assert(edge_ok(self.nodes@, ctx, m, self.nodes@[m].from@[k]));
        }
    }

    /// In a well-formed graph the state of every node can be rebuilt, and is the state
    /// that replaying the clicks from the root gives.
    pub proof fn lemma_wf_rebuilt(&self, ctx: &Context<T>, id: int)
        requires
            ctx.wf(),
            self.wf(ctx),
            0 <= id < self.nodes@.len(),
        ensures
            self.rebuilt(ctx, id) == Ok::<StateView, Error>(self.replay(ctx, id)),
        decreases id,
    {
        if id > 0 && !self.cache@.contains_key(id as u32) {
            assert(created_ok(self.nodes@, ctx, id));
            let e = self.nodes@[id].from@[0];
            assert(self.nodes@[id].parent_edge(id) == Some(e));
            self.lemma_wf_rebuilt(ctx, e.0.0 as int);
            lemma_settled_len(self.nodes@, ctx, e.0.0 as int);
            lemma_settled(self.nodes@, ctx, e.0.0 as int);
            let parent = settled(self.nodes@, ctx, e.0.0 as int);
            lemma_clicked_is_click(
                parent,
                ctx.actions_of(e.1.0 as int),
                e.1.0 as int,
                indices(self.nodes@[id].cleared@),
            );
        }
    }
}

impl<T: Bits> Graph<T> {
    /// What exploring keeps true: the graph is well formed, every edge is justified, and
    /// the nodes before `done` have all their clicks recorded.
    #[verifier::opaque]
    pub open spec fn explored(&self, ctx: &Context<T>, done: int) -> bool {
        &&& self.wf(ctx)
        &&& self.sound(ctx)
        &&& forall|p: int| 0 <= p < done ==> #[trigger] expanded(self.nodes@, ctx, p)
    }

    /// Looking for a node to merge into never fails in a well-formed graph, and what it
    /// finds is a node whose state subsumes the state looked for.
    pub proof fn lemma_scan(&self, ctx: &Context<T>, candidates: Seq<NodeId>, k: int, state: StateView)
        requires
            ctx.wf(),
            self.wf(ctx),
            0 <= k,
            forall|j: int| 0 <= j < candidates.len() ==> (#[trigger] candidates[j]).0 < self.nodes@.len(),
        ensures
            match self.scan(ctx, candidates, k, state) {
                Ok(Some(id)) => id.0 < self.nodes@.len() && self.replay(ctx, id.0 as int).subsumes(state),
                Ok(None) => true,
                Err(_) => false,
            },
        decreases candidates.len() - k,
    {
        if k < candidates.len() {
            self.lemma_wf_rebuilt(ctx, candidates[k].0 as int);
            self.lemma_scan(ctx, candidates, k + 1, state);
        }
    }

    /// Recording a justified click as one more edge into node `m` keeps the graph
    /// explored.
    pub proof fn lemma_add_edge_keeps(a: &Self, b: &Self, ctx: &Context<T>, done: int, m: int, e: Edge)
        requires
            ctx.wf(),
            a.explored(ctx, done),
            done <= a.nodes@.len(),
            0 <= m < a.nodes@.len(),
            b.nodes@.len() == a.nodes@.len(),
            b.nodes@[m].from@ == a.nodes@[m].from@.push(e),
            b.nodes@[m].cleared@ == a.nodes@[m].cleared@,
            b.nodes@[m].forced@ == a.nodes@[m].forced@,
            forall|j: int| 0 <= j < a.nodes@.len() && j != m ==> b.nodes@[j] == a.nodes@[j],
            b.cache@ == a.cache@,
            b.hashes@ == a.hashes@,
            edge_ok(a.nodes@, ctx, m, e),
        ensures
            b.explored(ctx, done),
            extends(a.nodes@, b.nodes@),
            has_edge(b.nodes@, e.0.0 as int, e.1.0 as int),
    {
        reveal(Graph::explored);
        let (an, bn) = (a.nodes@, b.nodes@);
        assert(extends(an, bn));
        lemma_extends_replays(an, bn, ctx);
        lemma_extends_settled(an, bn, ctx);
        assert(tree_ok(bn, ctx)) by {
            assert forall|j: int| 0 < j < bn.len() implies #[trigger] created_ok(bn, ctx, j) by {
                assert(created_ok(an, ctx, j));
                assert(bn[j].from@[0] == an[j].from@[0]);
                let parent = an[j].from@[0].0.0 as int;
                assert(replay_in(bn, ctx, parent) == replay_in(an, ctx, parent));
                assert(settled(bn, ctx, parent) == settled(an, ctx, parent));
            }
        }
        assert(b.wf(ctx)) by {
            assert forall|h: u64| #[trigger] b.bucket(h) == a.bucket(h) by {}
        }
        let last = an[m].from@.len() as int;
        assert(bn[m].from@[last] == e);
        assert(edges_ok(bn, ctx)) by {
            assert forall|i: int, k: int| 0 <= i < bn.len() && 0 <= k < bn[i].from@.len() implies edge_ok(
                bn,
                ctx,
                i,
                #[trigger] bn[i].from@[k],
            ) by {
                if i == m && k == last {
                    assert(edge_ok(an, ctx, m, e));
                    assert(settled(bn, ctx, e.0.0 as int) == settled(an, ctx, e.0.0 as int));
                } else {
                    assert(k < an[i].from@.len());
                    assert(bn[i].from@[k] == an[i].from@[k]);
                    assert(edge_ok(an, ctx, i, an[i].from@[k]));
                    assert(settled(bn, ctx, an[i].from@[k].0.0 as int) == settled(
                        an,
                        ctx,
                        an[i].from@[k].0.0 as int,
                    ));
                }
            }
        }
        assert forall|p: int| 0 <= p < done implies #[trigger] expanded(bn, ctx, p) by {
            lemma_extends_expanded(an, bn, ctx, p);
        }
    }

    /// Adding a node for a click that no node subsumes keeps the graph explored.
    pub proof fn lemma_push_keeps(a: &Self, b: &Self, ctx: &Context<T>, done: int, e: Edge)
        requires
            ctx.wf(),
            a.explored(ctx, done),
            done <= a.nodes@.len(),
            a.nodes@.len() < u32::MAX,
            b.nodes@.len() == a.nodes@.len() + 1,
            forall|j: int| 0 <= j < a.nodes@.len() ==> b.nodes@[j] == a.nodes@[j],
            b.nodes@[a.nodes@.len() as int].from@ == seq![e],
            e.0.0 < a.nodes@.len(),
            settled(a.nodes@, ctx, e.0.0 as int).leading(e.1.0 as int),
            indices(b.nodes@[a.nodes@.len() as int].forced@) == a.replay(ctx, e.0.0 as int).forced(
                ctx,
                FORWARD_LIMIT as nat,
            ),
            settled(a.nodes@, ctx, e.0.0 as int).cleared_before(
                e.1.0 as int,
                indices(b.nodes@[a.nodes@.len() as int].cleared@),
            ),
            increasing(b.nodes@[a.nodes@.len() as int].cleared@),
            forall|k: int|
                0 <= k < b.nodes@[a.nodes@.len() as int].cleared@.len() ==> (
                #[trigger] b.nodes@[a.nodes@.len() as int].cleared@[k]).0 < ctx.n,
            forall|k: int|
                0 <= k < b.nodes@[a.nodes@.len() as int].forced@.len() ==> (
                #[trigger] b.nodes@[a.nodes@.len() as int].forced@[k]).0 < ctx.n,
            forall|k: u32| #[trigger]
                b.cache@.contains_key(k) ==> (a.cache@.contains_key(k) && b.cache@[k] == a.cache@[k]) || (
                k == a.nodes@.len() && b.cache@[k].has_cap(ctx.cap as nat) && b.cache@[k]@ == settled(
                    a.nodes@,
                    ctx,
                    e.0.0 as int,
                ).click(ctx.actions_of(e.1.0 as int), e.1.0 as int)),
            forall|h: u64, j: int|
                0 <= j < b.bucket(h).len() ==> (#[trigger] b.bucket(h)[j]).0 < b.nodes@.len(),
        ensures
            b.explored(ctx, done),
            extends(a.nodes@, b.nodes@),
            has_edge(b.nodes@, e.0.0 as int, e.1.0 as int),
            b.replay(ctx, a.nodes@.len() as int) == settled(a.nodes@, ctx, e.0.0 as int).click(
                ctx.actions_of(e.1.0 as int),
                e.1.0 as int,
            ),
    {
        reveal(Graph::explored);
        let (an, bn) = (a.nodes@, b.nodes@);
        let id = an.len() as int;
        assert(extends(an, bn));
        lemma_pushed_tree(an, bn, ctx, e);
        assert(b.wf(ctx)) by {
            lemma_extends_replays(an, bn, ctx);
            assert forall|k: u32| #[trigger] b.cache@.contains_key(k) implies k < bn.len()
                && b.cache@[k].has_cap(ctx.cap as nat) && b.cache@[k]@ == replay_in(bn, ctx, k as int) by {
                if a.cache@.contains_key(k) && b.cache@[k] == a.cache@[k] {
                    assert(replay_in(bn, ctx, k as int) == replay_in(an, ctx, k as int));
                }
            }
        }
        assert(edges_ok(bn, ctx)) by {
            lemma_pushed_edges(an, bn, ctx, e);
        }
        assert forall|p: int| 0 <= p < done implies #[trigger] expanded(bn, ctx, p) by {
            lemma_extends_expanded(an, bn, ctx, p);
        }
        assert(bn[id].from@[0].0.0 == e.0.0 && bn[id].from@[0].1.0 == e.1.0);
    }

    /// The graph that holds the root alone.
    pub fn new(ctx: &Context<T>) -> (r: Self)
        requires
            ctx.wf(),
        ensures
            r.explored(ctx, 0),
            r.unique(ctx),
            r.exact(ctx),
            r.ordered(),
            r.recorded_before(0, 0),
            r.stored_by_stride(),
            r.filed_in_order(ctx),
            r.wf(ctx),
            r.sound(ctx),
            r.nodes@.len() == 1,
            r.nodes@[0].from@.len() == 0,
            forall|k: u32| !r.cache@.contains_key(k),
    {
        proof {
            reveal(Graph::explored);
        }
        let mut nodes: Vec<Node> = Vec::new();
        nodes.push(Node { from: Edges::Zero, forced: Vec::new(), cleared: Vec::new() });
        let mut graph = Graph { nodes, cache: HashMap::new(), hashes: HashMap::new() };
        let ghost empty = graph;
        graph.update_filters(ctx, &ctx.root, NodeId::new(0));
        proof {
            let filed = graph.bucket(Self::key(ctx, &ctx.root));
            assert(filed[filed.len() - 1] == NodeId(0));
            assert forall|g: u64| (#[trigger] empty.bucket(g)).len() == 0 by {}
            assert(filed =~= seq![NodeId(0)]);
            graph.lemma_filed_root(ctx);
            graph.lemma_unique_root(ctx);
            graph.lemma_exact_root(ctx);
            graph.lemma_ordered_root();
            graph.lemma_stored_root();
        }
        graph
    }

    /// Files node `node_id`, whose state is `state`, under the hash of that state, after
    /// the nodes already there.
    fn update_filters(&mut self, ctx: &Context<T>, state: &State<T>, node_id: NodeId)
        requires
            ctx.wf(),
            state.has_cap(ctx.cap as nat),
        ensures
            final(self).nodes == old(self).nodes,
            final(self).cache == old(self).cache,
            final(self).bucket(Self::key(ctx, state)) == old(self).bucket(Self::key(ctx, state)).push(
                node_id,
            ),
            forall|g: u64|
                g != Self::key(ctx, state) ==> #[trigger] final(self).bucket(g) == old(self).bucket(g),
    {
        broadcast use vstd::std_specs::hash::group_hash_axioms;

        let h = Self::state_key(ctx, state);
        let id = node_id;
        let mut bucket = match self.hashes.remove(&h) {
            Some(bucket) => bucket,
            None => Vec::new(),
        };
        bucket.push(id);
        self.hashes.insert(h, bucket);
    }

    /// Records a click on `shape` in node `parent` as one more edge into node `target`.
    fn add_edge(&mut self, target: NodeId, parent: NodeId, shape: ShapeId)
        requires
            target.0 < old(self).nodes@.len(),
        ensures
            final(self).nodes@.len() == old(self).nodes@.len(),
            final(self).nodes@[target.0 as int].from@ == old(self).nodes@[target.0 as int].from@.push(
                Edge(parent, shape),
            ),
            final(self).nodes@[target.0 as int].cleared@ == old(self).nodes@[target.0 as int].cleared@,
            final(self).nodes@[target.0 as int].forced@ == old(self).nodes@[target.0 as int].forced@,
            forall|j: int|
                0 <= j < old(self).nodes@.len() && j != target.0 ==> final(self).nodes@[j]
                    == old(self).nodes@[j],
            final(self).cache == old(self).cache,
            final(self).hashes == old(self).hashes,
    {
        let node = &mut self.nodes[target.index()];
        node.from.push(parent, shape);
    }

    /// Adds the node that a click on `shape` creates in the settled state of node `parent`,
    /// files it under the hash of its state, and stores the state whole if `store` is set.
    fn push(
        &mut self,
        ctx: &Context<T>,
        state: &State<T>,
        parent: NodeId,
        shape: ShapeId,
        forced: Vec<ShapeId>,
        cleared: Vec<ShapeId>,
        store: bool,
    ) -> (id: NodeId)
        requires
            ctx.wf(),
            state.has_cap(ctx.cap as nat),
            old(self).nodes@.len() < u32::MAX,
        ensures
            id.0 == old(self).nodes@.len(),
            final(self).nodes@.len() == old(self).nodes@.len() + 1,
            forall|j: int| 0 <= j < old(self).nodes@.len() ==> final(self).nodes@[j] == old(self).nodes@[j],
            final(self).nodes@[id.0 as int].from@ == seq![Edge(parent, shape)],
            final(self).nodes@[id.0 as int].forced@ == forced@,
            final(self).nodes@[id.0 as int].cleared@ == cleared@,
            forall|k: u32| #[trigger]
                final(self).cache@.contains_key(k) ==> {
                    ||| old(self).cache@.contains_key(k) && final(self).cache@[k] == old(self).cache@[k]
                    ||| k == id.0 && final(self).cache@[k].has_cap(ctx.cap as nat)
                        && final(self).cache@[k]@ == state@
                },
            forall|k: u32|
                (#[trigger] final(self).cache@.contains_key(k)) == (old(self).cache@.contains_key(k) || (
                store && k == id.0)),
            final(self).bucket(Self::key(ctx, state)) == old(self).bucket(Self::key(ctx, state)).push(id),
            forall|g: u64|
                g != Self::key(ctx, state) ==> #[trigger] final(self).bucket(g) == old(self).bucket(g),
    {
        broadcast use vstd::std_specs::hash::group_hash_axioms;

        let id = NodeId::new(self.nodes.len());
        self.nodes.push(Node::reached(parent, shape, forced, cleared));
        if store {
            self.cache.insert(id.0, state.clone());
        }
        let ghost h = Self::key(ctx, state);
        let ghost before = *self;
        self.update_filters(ctx, state, id);
        assert forall|g: u64| g != h implies #[trigger] self.bucket(g) == old(self).bucket(g) by {
            assert(before.bucket(g) == old(self).bucket(g));
        }
        assert(before.bucket(h) == old(self).bucket(h));
        id
    }
}

/// A copy of a list of shapes.
fn copy_ids(ids: &Vec<ShapeId>) -> (r: Vec<ShapeId>)
    ensures
        r@ == ids@,
{
    let mut r: Vec<ShapeId> = Vec::new();
    let mut k: usize = 0;
    while k < ids.len()
        invariant
            k <= ids@.len(),
            r@ == ids@.take(k as int),
        decreases ids@.len() - k,
    {
        r.push(ids[k]);
        assert(r@ =~= ids@.take(k + 1));
        k += 1;
    }
    assert(ids@.take(k as int) =~= ids@);
    r
}

/// Whether the states waiting to be expanded are those of the nodes from `from` on, in
/// order, each a short way from a stored state.
#[verifier::opaque]
pub open spec fn waiting<T: Bits>(
    states: Seq<(NodeId, State<T>, usize)>,
    nodes: Seq<Node>,
    ctx: &Context<T>,
    from: int,
) -> bool {
    &&& from + states.len() == nodes.len()
    &&& forall|j: int|
        0 <= j < states.len() ==> {
            let entry = #[trigger] states[j];
            &&& entry.0.0 == from + j
            &&& entry.1.has_cap(ctx.cap as nat)
            &&& entry.1@ == replay_in(nodes, ctx, from + j)
            &&& entry.2 < CACHE_STRIDE
        }
}

impl<T: Bits> Graph<T> {
    /// No two nodes have the same state.
    pub open spec fn distinct(&self, ctx: &Context<T>) -> bool {
        forall|i: int, j: int|
            0 <= i < j < self.nodes@.len() ==> self.replay(ctx, i) != self.replay(ctx, j)
    }

    /// Node `m` is filed under the hash of its state.
    pub open spec fn filed_at(&self, ctx: &Context<T>, m: int) -> bool {
        exists|state: State<T>|
            state.has_cap(ctx.cap as nat) && state@ == self.replay(ctx, m) && self.bucket(
                Self::key(ctx, &state),
            ).contains(NodeId(m as u32))
    }

    /// Every node is filed under the hash of its state, and no two nodes have the same
    /// state.
    #[verifier::opaque]
    pub open spec fn unique(&self, ctx: &Context<T>) -> bool {
        &&& self.distinct(ctx)
        &&& forall|m: int| 0 <= m < self.nodes@.len() ==> #[trigger] self.filed_at(ctx, m)
    }

    /// Some click that is possible in the settled state of some node gives a state that
    /// no node has.
    pub open spec fn overflows(&self, ctx: &Context<T>) -> bool {
        exists|p: int, s: int|
            0 <= p < self.nodes@.len() && #[trigger] settled(self.nodes@, ctx, p).leading(s)
                && forall|m: int|
                0 <= m < self.nodes@.len() ==> #[trigger] self.replay(ctx, m) != settled(
                    self.nodes@,
                    ctx,
                    p,
                ).click(ctx.actions_of(s), s)
    }

    /// Where the scan finds nothing, no candidate has a state that subsumes the state
    /// looked for.
    pub proof fn lemma_scan_none(
        &self,
        ctx: &Context<T>,
        candidates: Seq<NodeId>,
        k: int,
        state: StateView,
        j: int,
    )
        requires
            0 <= k <= j < candidates.len(),
            self.scan(ctx, candidates, k, state) == Ok::<Option<NodeId>, Error>(None),
        ensures
            self.rebuilt(ctx, candidates[j].0 as int) matches Ok(s) && !s.subsumes(state),
        decreases candidates.len() - k,
    {
        if k < j {
            self.lemma_scan_none(ctx, candidates, k + 1, state, j);
        }
    }

    /// A state for which the scan finds nothing is the state of no node.
    pub proof fn lemma_not_merged(&self, ctx: &Context<T>, state: &State<T>, m: int)
        requires
            ctx.wf(),
            self.wf(ctx),
            self.unique(ctx),
            state.has_cap(ctx.cap as nat),
            self.scan(ctx, self.bucket(Self::key(ctx, state)), 0, state@) == Ok::<
                Option<NodeId>,
                Error,
            >(None),
            0 <= m < self.nodes@.len(),
        ensures
            self.replay(ctx, m) != state@,
    {
        reveal(Graph::unique);
        if self.replay(ctx, m) == state@ {
            assert(self.filed_at(ctx, m));
            let filed = choose|filed: State<T>|
                filed.has_cap(ctx.cap as nat) && filed@ == self.replay(ctx, m) && self.bucket(
                    Self::key(ctx, &filed),
                ).contains(NodeId(m as u32));
            BitVec::lemma_view_determines_chunks(&filed.t, &state.t);
            BitVec::lemma_view_determines_chunks(&filed.v, &state.v);
            assert(Self::key(ctx, &filed) == Self::key(ctx, state));
            let candidates = self.bucket(Self::key(ctx, state));
            let j = choose|j: int| 0 <= j < candidates.len() && candidates[j] == NodeId(m as u32);
            self.lemma_scan_none(ctx, candidates, 0, state@, j);
            self.lemma_wf_rebuilt(ctx, m);
            lemma_subsumes_itself(state@);
        }
    }

    /// The graph of the root alone files the root, and knows no state twice.
    pub proof fn lemma_unique_root(&self, ctx: &Context<T>)
        requires
            self.nodes@.len() == 1,
            ctx.root.has_cap(ctx.cap as nat),
            self.bucket(Self::key(ctx, &ctx.root)).contains(NodeId(0)),
        ensures
            self.unique(ctx),
    {
        reveal(Graph::unique);
        assert(self.filed_at(ctx, 0)) by {
            assert(ctx.root@ == self.replay(ctx, 0));
        }
    }

    /// One more edge changes neither where the nodes are filed nor their states.
    pub proof fn lemma_unique_add_edge(a: &Self, b: &Self, ctx: &Context<T>)
        requires
            tree_ok(a.nodes@, ctx),
            a.unique(ctx),
            extends(a.nodes@, b.nodes@),
            b.nodes@.len() == a.nodes@.len(),
            b.hashes@ == a.hashes@,
        ensures
            b.unique(ctx),
    {
        reveal(Graph::unique);
        lemma_extends_replays(a.nodes@, b.nodes@, ctx);
        assert forall|i: int, j: int| 0 <= i < j < b.nodes@.len() implies b.replay(ctx, i) != b.replay(
            ctx,
            j,
        ) by {
            assert(a.replay(ctx, i) != a.replay(ctx, j));
        }
        assert forall|m: int| 0 <= m < b.nodes@.len() implies #[trigger] b.filed_at(ctx, m) by {
            assert(a.filed_at(ctx, m));
            let filed = choose|filed: State<T>|
                filed.has_cap(ctx.cap as nat) && filed@ == a.replay(ctx, m) && a.bucket(
                    Self::key(ctx, &filed),
                ).contains(NodeId(m as u32));
            assert(b.bucket(Self::key(ctx, &filed)) == a.bucket(Self::key(ctx, &filed)));
        }
    }

    /// A node that is added for a state that no node has, and is filed under the hash of
    /// that state, keeps the states apart and the nodes filed.
    pub proof fn lemma_unique_push(a: &Self, b: &Self, ctx: &Context<T>, state: &State<T>)
        requires
            tree_ok(a.nodes@, ctx),
            a.unique(ctx),
            extends(a.nodes@, b.nodes@),
            b.nodes@.len() == a.nodes@.len() + 1,
            a.nodes@.len() < u32::MAX,
            state.has_cap(ctx.cap as nat),
            b.replay(ctx, a.nodes@.len() as int) == state@,
            forall|m: int| 0 <= m < a.nodes@.len() ==> #[trigger] a.replay(ctx, m) != state@,
            b.bucket(Self::key(ctx, state)) == a.bucket(Self::key(ctx, state)).push(
                NodeId(a.nodes@.len() as u32),
            ),
            forall|g: u64| g != Self::key(ctx, state) ==> #[trigger] b.bucket(g) == a.bucket(g),
        ensures
            b.unique(ctx),
    {
        reveal(Graph::unique);
        let id = a.nodes@.len() as int;
        let h = Self::key(ctx, state);
        lemma_extends_replays(a.nodes@, b.nodes@, ctx);
        assert forall|i: int, j: int| 0 <= i < j < b.nodes@.len() implies b.replay(ctx, i) != b.replay(
            ctx,
            j,
        ) by {
            if j < id {
                assert(a.replay(ctx, i) != a.replay(ctx, j));
            } else {
                assert(a.replay(ctx, i) != state@);
            }
        }
        assert forall|m: int| 0 <= m < b.nodes@.len() implies #[trigger] b.filed_at(ctx, m) by {
            if m < id {
                assert(a.filed_at(ctx, m));
                let filed = choose|filed: State<T>|
                    filed.has_cap(ctx.cap as nat) && filed@ == a.replay(ctx, m) && a.bucket(
                        Self::key(ctx, &filed),
                    ).contains(NodeId(m as u32));
                let g = Self::key(ctx, &filed);
                let at = choose|at: int| 0 <= at < a.bucket(g).len() && a.bucket(g)[at] == NodeId(m as u32);
                assert(b.bucket(g)[at] == NodeId(m as u32));
            } else {
                assert(b.bucket(h)[a.bucket(h).len() as int] == NodeId(id as u32));
            }
        }
    }
}

impl<T: Bits> Graph<T> {
    /// Node `m` exists, and `h` is the hash of its state.
    pub open spec fn keyed(&self, ctx: &Context<T>, m: int, h: u64) -> bool {
        0 <= m < self.nodes@.len() && exists|state: State<T>|
            state.has_cap(ctx.cap as nat) && state@ == self.replay(ctx, m) && #[trigger] Self::key(
                ctx,
                &state,
            ) == h
    }

    /// Under every hash stand, oldest first, nodes whose state has that hash, and nothing
    /// else.
    #[verifier::opaque]
    pub open spec fn filed_in_order(&self, ctx: &Context<T>) -> bool {
        &&& forall|h: u64, j: int|
            0 <= j < self.bucket(h).len() ==> self.keyed(ctx, (#[trigger] self.bucket(h)[j]).0 as int, h)
        &&& forall|h: u64, i: int, j: int|
            0 <= i < j < self.bucket(h).len() ==> (#[trigger] self.bucket(h)[i]).0 < (
            #[trigger] self.bucket(h)[j]).0
    }

    /// The graph of the root alone, filed under the hash of the root state, is filed in
    /// order.
    pub proof fn lemma_filed_root(&self, ctx: &Context<T>)
        requires
            self.nodes@.len() == 1,
            ctx.root.has_cap(ctx.cap as nat),
            self.bucket(Self::key(ctx, &ctx.root)) == seq![NodeId(0)],
            forall|g: u64| g != Self::key(ctx, &ctx.root) ==> (#[trigger] self.bucket(g)).len() == 0,
        ensures
            self.filed_in_order(ctx),
    {
        reveal(Graph::filed_in_order);
        assert forall|h: u64, j: int| 0 <= j < self.bucket(h).len() implies self.keyed(
            ctx,
            (#[trigger] self.bucket(h)[j]).0 as int,
            h,
        ) by {
            assert(ctx.root@ == self.replay(ctx, 0));
            assert(Self::key(ctx, &ctx.root) == h);
        }
    }

    /// One more edge leaves the nodes filed as they were.
    pub proof fn lemma_filed_add_edge(a: &Self, b: &Self, ctx: &Context<T>)
        requires
            tree_ok(a.nodes@, ctx),
            a.filed_in_order(ctx),
            extends(a.nodes@, b.nodes@),
            b.nodes@.len() == a.nodes@.len(),
            b.hashes@ == a.hashes@,
        ensures
            b.filed_in_order(ctx),
    {
        reveal(Graph::filed_in_order);
        lemma_extends_replays(a.nodes@, b.nodes@, ctx);
        assert forall|h: u64, j: int| 0 <= j < b.bucket(h).len() implies b.keyed(
            ctx,
            (#[trigger] b.bucket(h)[j]).0 as int,
            h,
        ) by {
            assert(b.bucket(h) == a.bucket(h));
            let m = a.bucket(h)[j].0 as int;
            assert(a.keyed(ctx, m, h));
            let state = choose|state: State<T>|
                state.has_cap(ctx.cap as nat) && state@ == a.replay(ctx, m) && #[trigger] Self::key(
                    ctx,
                    &state,
                ) == h;
            assert(Self::key(ctx, &state) == h);
        }
        assert forall|h: u64, i: int, j: int| 0 <= i < j < b.bucket(h).len() implies (
        #[trigger] b.bucket(h)[i]).0 < (#[trigger] b.bucket(h)[j]).0 by {
            assert(b.bucket(h) == a.bucket(h));
        }
    }

    /// A node that is added and filed under the hash of its state keeps the nodes filed
    /// in order.
    pub proof fn lemma_filed_push(a: &Self, b: &Self, ctx: &Context<T>, state: &State<T>)
        requires
            tree_ok(a.nodes@, ctx),
            a.filed_in_order(ctx),
            extends(a.nodes@, b.nodes@),
            b.nodes@.len() == a.nodes@.len() + 1,
            a.nodes@.len() < u32::MAX,
            state.has_cap(ctx.cap as nat),
            b.replay(ctx, a.nodes@.len() as int) == state@,
            b.bucket(Self::key(ctx, state)) == a.bucket(Self::key(ctx, state)).push(
                NodeId(a.nodes@.len() as u32),
            ),
            forall|g: u64| g != Self::key(ctx, state) ==> #[trigger] b.bucket(g) == a.bucket(g),
        ensures
            b.filed_in_order(ctx),
    {
        reveal(Graph::filed_in_order);
        let id = a.nodes@.len() as int;
        let key = Self::key(ctx, state);
        lemma_extends_replays(a.nodes@, b.nodes@, ctx);
        assert forall|h: u64, j: int| 0 <= j < b.bucket(h).len() implies b.keyed(
            ctx,
            (#[trigger] b.bucket(h)[j]).0 as int,
            h,
        ) by {
            if h == key && j == a.bucket(h).len() {
                assert(Self::key(ctx, state) == h);
            } else {
                assert(b.bucket(h)[j] == a.bucket(h)[j]);
                let m = a.bucket(h)[j].0 as int;
                assert(a.keyed(ctx, m, h));
                let filed = choose|filed: State<T>|
                    filed.has_cap(ctx.cap as nat) && filed@ == a.replay(ctx, m) && #[trigger] Self::key(
                        ctx,
                        &filed,
                    ) == h;
                assert(Self::key(ctx, &filed) == h);
            }
        }
        assert forall|h: u64, i: int, j: int| 0 <= i < j < b.bucket(h).len() implies (
        #[trigger] b.bucket(h)[i]).0 < (#[trigger] b.bucket(h)[j]).0 by {
            assert(b.bucket(h)[i] == a.bucket(h)[i]);
            assert(a.keyed(ctx, a.bucket(h)[i].0 as int, h));
            if h == key && j == a.bucket(h).len() {
            } else {
                assert(b.bucket(h)[j] == a.bucket(h)[j]);
            }
        }
    }
}

/// The first of the candidates from position `k` on whose state subsumes `state`.
pub open spec fn search<T: Bits>(
    nodes: Seq<Node>,
    ctx: &Context<T>,
    candidates: Seq<NodeId>,
    k: int,
    state: StateView,
) -> Option<NodeId>
    decreases candidates.len() - k,
{
    if k < 0 || k >= candidates.len() {
        None
    } else if replay_in(nodes, ctx, candidates[k].0 as int).subsumes(state) {
        Some(candidates[k])
    } else {
        search(nodes, ctx, candidates, k + 1, state)
    }
}

/// The search gives the same where the candidates have the same states.
pub proof fn lemma_search_same<T: Bits>(
    a: Seq<Node>,
    b: Seq<Node>,
    ctx: &Context<T>,
    candidates: Seq<NodeId>,
    k: int,
    state: StateView,
)
    requires
        0 <= k,
        forall|j: int|
            0 <= j < candidates.len() ==> replay_in(b, ctx, (#[trigger] candidates[j]).0 as int)
                == replay_in(a, ctx, candidates[j].0 as int),
    ensures
        search(b, ctx, candidates, k, state) == search(a, ctx, candidates, k, state),
    decreases candidates.len() - k,
{
    if k < candidates.len() {
        lemma_search_same(a, b, ctx, candidates, k + 1, state);
    }
}

/// One more candidate at the end matters only where the search found nothing.
pub proof fn lemma_search_push<T: Bits>(
    nodes: Seq<Node>,
    ctx: &Context<T>,
    candidates: Seq<NodeId>,
    extra: NodeId,
    k: int,
    state: StateView,
)
    requires
        0 <= k <= candidates.len(),
    ensures
        search(nodes, ctx, candidates.push(extra), k, state) == match search(
            nodes,
            ctx,
            candidates,
            k,
            state,
        ) {
            Some(found) => Some(found),
            None => if replay_in(nodes, ctx, extra.0 as int).subsumes(state) {
                Some(extra)
            } else {
                None
            },
        },
    decreases candidates.len() - k,
{
    let more = candidates.push(extra);
    if k < candidates.len() {
        assert(more[k] == candidates[k]);
        lemma_search_push(nodes, ctx, candidates, extra, k + 1, state);
    } else {
        assert(more[k] == extra);
        assert(search(nodes, ctx, more, k + 1, state) is None);
    }
}

impl<T: Bits> Graph<T> {
    /// The node that a click with the outcome `state` leads to: the oldest node, among
    /// those filed under the hash of `state`, whose state subsumes it.
    pub open spec fn found(&self, ctx: &Context<T>, state: &State<T>) -> Option<NodeId> {
        search(self.nodes@, ctx, self.bucket(Self::key(ctx, state)), 0, state@)
    }

    /// The edge `e` into node `m` leads where its click belongs: to the oldest node,
    /// among those filed under the hash of the state that the click gives, whose state
    /// subsumes it.
    pub open spec fn edge_exact(&self, ctx: &Context<T>, m: int, e: Edge) -> bool {
        forall|state: State<T>|
            state.has_cap(ctx.cap as nat) && state@ == settled(self.nodes@, ctx, e.0.0 as int).click(
                ctx.actions_of(e.1.0 as int),
                e.1.0 as int,
            ) ==> #[trigger] self.found(ctx, &state) == Some(NodeId(m as u32))
    }

    /// Every edge leads where its click belongs.
    #[verifier::opaque]
    pub open spec fn exact(&self, ctx: &Context<T>) -> bool {
        forall|m: int, k: int|
            0 <= m < self.nodes@.len() && 0 <= k < self.nodes@[m].from@.len() ==> self.edge_exact(
                ctx,
                m,
                #[trigger] self.nodes@[m].from@[k],
            )
    }

    /// In a well-formed graph, looking for a node to merge into finds what the search
    /// finds.
    pub proof fn lemma_scan_is_search(
        &self,
        ctx: &Context<T>,
        candidates: Seq<NodeId>,
        k: int,
        state: StateView,
    )
        requires
            ctx.wf(),
            self.wf(ctx),
            0 <= k,
            forall|j: int| 0 <= j < candidates.len() ==> (#[trigger] candidates[j]).0 < self.nodes@.len(),
        ensures
            self.scan(ctx, candidates, k, state) == Ok::<Option<NodeId>, Error>(
                search(self.nodes@, ctx, candidates, k, state),
            ),
        decreases candidates.len() - k,
    {
        if k < candidates.len() {
            self.lemma_wf_rebuilt(ctx, candidates[k].0 as int);
            self.lemma_scan_is_search(ctx, candidates, k + 1, state);
        }
    }

    /// Two states with the same booleans are filed under the same hash.
    pub proof fn lemma_same_key(ctx: &Context<T>, a: &State<T>, b: &State<T>)
        requires
            a@ == b@,
        ensures
            Self::key(ctx, a) == Self::key(ctx, b),
    {
        BitVec::lemma_view_determines_chunks(&a.t, &b.t);
        BitVec::lemma_view_determines_chunks(&a.v, &b.v);
    }

    /// One more edge that leads where its click belongs keeps every edge exact.
    pub proof fn lemma_exact_add_edge(a: &Self, b: &Self, ctx: &Context<T>, m: int, e: Edge, next: &State<T>)
        requires
            ctx.wf(),
            tree_ok(a.nodes@, ctx),
            edges_ok(a.nodes@, ctx),
            a.exact(ctx),
            extends(a.nodes@, b.nodes@),
            0 <= m < a.nodes@.len(),
            b.nodes@.len() == a.nodes@.len(),
            b.nodes@[m].from@ == a.nodes@[m].from@.push(e),
            forall|j: int| 0 <= j < a.nodes@.len() && j != m ==> b.nodes@[j] == a.nodes@[j],
            b.hashes@ == a.hashes@,
            e.0.0 < a.nodes@.len(),
            forall|h: u64, j: int|
                0 <= j < a.bucket(h).len() ==> (#[trigger] a.bucket(h)[j]).0 < a.nodes@.len(),
            next@ == settled(a.nodes@, ctx, e.0.0 as int).click(ctx.actions_of(e.1.0 as int), e.1.0 as int),
            a.found(ctx, next) == Some(NodeId(m as u32)),
        ensures
            b.exact(ctx),
    {
        reveal(Graph::exact);
        let (an, bn) = (a.nodes@, b.nodes@);
        lemma_extends_replays(an, bn, ctx);
        lemma_extends_settled(an, bn, ctx);
        let last = an[m].from@.len() as int;
        assert forall|i: int, k: int| 0 <= i < bn.len() && 0 <= k < bn[i].from@.len() implies b.edge_exact(
            ctx,
            i,
            #[trigger] bn[i].from@[k],
        ) by {
            let edge = bn[i].from@[k];
            assert forall|state: State<T>|
                state.has_cap(ctx.cap as nat) && state@ == settled(bn, ctx, edge.0.0 as int).click(
                    ctx.actions_of(edge.1.0 as int),
                    edge.1.0 as int,
                ) implies #[trigger] b.found(ctx, &state) == Some(NodeId(i as u32)) by {
                let bucket = a.bucket(Self::key(ctx, &state));
                assert(b.bucket(Self::key(ctx, &state)) == bucket);
                lemma_search_same(an, bn, ctx, bucket, 0, state@);
                if i == m && k == last {
                    assert(edge == e);
                    Self::lemma_same_key(ctx, &state, next);
                } else {
                    assert(bn[i].from@[k] == an[i].from@[k]);
                    assert(a.edge_exact(ctx, i, an[i].from@[k]));
                    assert(edge_ok(an, ctx, i, an[i].from@[k]));
                    assert(a.found(ctx, &state) == Some(NodeId(i as u32)));
                }
            }
        }
    }
}

impl<T: Bits> Graph<T> {
    /// A graph without edges has every edge where it belongs.
    pub proof fn lemma_exact_root(&self, ctx: &Context<T>)
        requires
            self.nodes@.len() == 1,
            self.nodes@[0].from@.len() == 0,
        ensures
            self.exact(ctx),
    {
        reveal(Graph::exact);
    }

    /// A node that is added for a click whose outcome no filed node subsumes keeps every
    /// edge exact.
    pub proof fn lemma_exact_push(a: &Self, b: &Self, ctx: &Context<T>, e: Edge, next: &State<T>)
        requires
            ctx.wf(),
            tree_ok(a.nodes@, ctx),
            edges_ok(a.nodes@, ctx),
            a.exact(ctx),
            extends(a.nodes@, b.nodes@),
            a.nodes@.len() < u32::MAX,
            b.nodes@.len() == a.nodes@.len() + 1,
            forall|j: int| 0 <= j < a.nodes@.len() ==> b.nodes@[j] == a.nodes@[j],
            b.nodes@[a.nodes@.len() as int].from@ == seq![e],
            e.0.0 < a.nodes@.len(),
            forall|h: u64, j: int|
                0 <= j < a.bucket(h).len() ==> (#[trigger] a.bucket(h)[j]).0 < a.nodes@.len(),
            b.bucket(Self::key(ctx, next)) == a.bucket(Self::key(ctx, next)).push(
                NodeId(a.nodes@.len() as u32),
            ),
            forall|g: u64| g != Self::key(ctx, next) ==> #[trigger] b.bucket(g) == a.bucket(g),
            next@ == settled(a.nodes@, ctx, e.0.0 as int).click(ctx.actions_of(e.1.0 as int), e.1.0 as int),
            b.replay(ctx, a.nodes@.len() as int) == next@,
            a.found(ctx, next) is None,
        ensures
            b.exact(ctx),
    {
        reveal(Graph::exact);
        let (an, bn) = (a.nodes@, b.nodes@);
        let id = an.len() as int;
        let new = NodeId(id as u32);
        let h = Self::key(ctx, next);
        lemma_extends_replays(an, bn, ctx);
        lemma_extends_settled(an, bn, ctx);
        assert forall|i: int, k: int| 0 <= i < bn.len() && 0 <= k < bn[i].from@.len() implies b.edge_exact(
            ctx,
            i,
            #[trigger] bn[i].from@[k],
        ) by {
            let edge = bn[i].from@[k];
            if i < id {
                assert(bn[i] == an[i]);
                assert(edge_ok(an, ctx, i, an[i].from@[k]));
                assert(a.edge_exact(ctx, i, an[i].from@[k]));
            } else {
                assert(edge == e);
            }
            assert forall|state: State<T>|
                state.has_cap(ctx.cap as nat) && state@ == settled(bn, ctx, edge.0.0 as int).click(
                    ctx.actions_of(edge.1.0 as int),
                    edge.1.0 as int,
                ) implies #[trigger] b.found(ctx, &state) == Some(NodeId(i as u32)) by {
                let g = Self::key(ctx, &state);
                let old_bucket = a.bucket(g);
                lemma_search_same(an, bn, ctx, old_bucket, 0, state@);
                if i == id {
                    Self::lemma_same_key(ctx, &state, next);
                    lemma_search_push(bn, ctx, old_bucket, new, 0, state@);
                    lemma_subsumes_itself(state@);
                } else {
                    assert(a.found(ctx, &state) == Some(NodeId(i as u32)));
                    if g == h {
                        lemma_search_push(bn, ctx, old_bucket, new, 0, state@);
                    }
                }
            }
        }
    }
}

impl<T: Bits> Graph<T> {
    /// How many clicks separate node `id` from the nearest ancestor whose state is stored,
    /// or from the root: as many as rebuilding its state has to play.
    pub open spec fn chain(&self, id: int) -> nat
        decreases id,
    {
        if id <= 0 || id >= self.nodes@.len() || id > u32::MAX || self.cache@.contains_key(id as u32) {
            0
        } else {
            match self.nodes@[id].parent_edge(id) {
                Some(e) => if e.0.0 < id {
                    1 + self.chain(e.0.0 as int)
                } else {
                    0
                },
                None => 0,
            }
        }
    }

    /// The states that are stored whole are those of the nodes that would otherwise be
    /// `CACHE_STRIDE` clicks away from a stored state or from the root; so no state is
    /// that far away.
    #[verifier::opaque]
    pub open spec fn stored_by_stride(&self) -> bool {
        &&& !self.cache@.contains_key(0)
        &&& forall|k: u32|
            0 < k < self.nodes@.len() ==> (#[trigger] self.cache@.contains_key(k)) == (
            match self.nodes@[k as int].parent_edge(k as int) {
                Some(e) => self.chain(e.0.0 as int) + 1 >= CACHE_STRIDE,
                None => false,
            })
        &&& forall|id: int| 0 <= id < self.nodes@.len() ==> #[trigger] self.chain(id) < CACHE_STRIDE
    }

    /// Nodes, edges and stored states that are added for later nodes leave the distance
    /// of a node to a stored state as it is.
    pub proof fn lemma_chain_same(a: &Self, b: &Self, ctx: &Context<T>, id: int)
        requires
            tree_ok(a.nodes@, ctx),
            extends(a.nodes@, b.nodes@),
            0 <= id < a.nodes@.len(),
            forall|k: u32| k <= id ==> b.cache@.contains_key(k) == a.cache@.contains_key(k),
        ensures
            b.chain(id) == a.chain(id),
        decreases id,
    {
        if id > 0 && !a.cache@.contains_key(id as u32) {
            assert(created_ok(a.nodes@, ctx, id));
            let e = a.nodes@[id].from@[0];
            assert(b.nodes@[id].from@[0] == e);
            assert(a.nodes@[id].parent_edge(id) == Some(e));
            assert(b.nodes@[id].parent_edge(id) == Some(e));
            Self::lemma_chain_same(a, b, ctx, e.0.0 as int);
        }
    }

    /// The graph of the root alone stores nothing.
    pub proof fn lemma_stored_root(&self)
        requires
            self.nodes@.len() == 1,
            forall|k: u32| !self.cache@.contains_key(k),
        ensures
            self.stored_by_stride(),
            self.chain(0) == 0,
    {
        reveal(Graph::stored_by_stride);
    }

    /// One more edge changes nothing of what is stored.
    pub proof fn lemma_stored_add_edge(a: &Self, b: &Self, ctx: &Context<T>)
        requires
            tree_ok(a.nodes@, ctx),
            a.stored_by_stride(),
            extends(a.nodes@, b.nodes@),
            b.nodes@.len() == a.nodes@.len(),
            b.cache@ == a.cache@,
        ensures
            b.stored_by_stride(),
            forall|id: int| 0 <= id < a.nodes@.len() ==> #[trigger] b.chain(id) == a.chain(id),
    {
        reveal(Graph::stored_by_stride);
        assert forall|id: int| 0 <= id < a.nodes@.len() implies #[trigger] b.chain(id) == a.chain(id) by {
            Self::lemma_chain_same(a, b, ctx, id);
        }
        assert forall|k: u32| 0 < k < b.nodes@.len() implies (#[trigger] b.cache@.contains_key(k)) == (
        match b.nodes@[k as int].parent_edge(k as int) {
            Some(e) => b.chain(e.0.0 as int) + 1 >= CACHE_STRIDE,
            None => false,
        }) by {
            let id = k as int;
            assert(created_ok(a.nodes@, ctx, id));
            let e = a.nodes@[id].from@[0];
            assert(b.nodes@[id].from@[0] == e);
            assert(a.nodes@[id].parent_edge(id) == Some(e));
            assert(b.nodes@[id].parent_edge(id) == Some(e));
            assert(b.chain(e.0.0 as int) == a.chain(e.0.0 as int));
            assert(a.cache@.contains_key(k) == (a.chain(e.0.0 as int) + 1 >= CACHE_STRIDE));
        }
    }

    /// A node that is added, with its state stored if it would otherwise be too far from a
    /// stored state, keeps what is stored right.
    pub proof fn lemma_stored_push(a: &Self, b: &Self, ctx: &Context<T>, e: Edge, store: bool)
        requires
            tree_ok(a.nodes@, ctx),
            a.stored_by_stride(),
            extends(a.nodes@, b.nodes@),
            a.nodes@.len() < u32::MAX,
            b.nodes@.len() == a.nodes@.len() + 1,
            b.nodes@[a.nodes@.len() as int].from@ == seq![e],
            e.0.0 < a.nodes@.len(),
            store == (a.chain(e.0.0 as int) + 1 >= CACHE_STRIDE),
            forall|k: u32|
                (#[trigger] b.cache@.contains_key(k)) == (a.cache@.contains_key(k) || (store && k
                    == a.nodes@.len())),
            forall|k: u32| #[trigger] a.cache@.contains_key(k) ==> k < a.nodes@.len(),
        ensures
            b.stored_by_stride(),
            forall|id: int| 0 <= id < a.nodes@.len() ==> #[trigger] b.chain(id) == a.chain(id),
            b.chain(a.nodes@.len() as int) == (if store {
                0
            } else {
                a.chain(e.0.0 as int) + 1
            }),
    {
        reveal(Graph::stored_by_stride);
        let new = a.nodes@.len() as int;
        assert forall|id: int| 0 <= id < a.nodes@.len() implies #[trigger] b.chain(id) == a.chain(id) by {
            Self::lemma_chain_same(a, b, ctx, id);
        }
        assert(b.nodes@[new].from@[0] == e);
        assert(b.nodes@[new].parent_edge(new) == Some(e));
        assert(b.chain(e.0.0 as int) == a.chain(e.0.0 as int));
        assert forall|k: u32| 0 < k < b.nodes@.len() implies (#[trigger] b.cache@.contains_key(k)) == (
        match b.nodes@[k as int].parent_edge(k as int) {
            Some(e) => b.chain(e.0.0 as int) + 1 >= CACHE_STRIDE,
            None => false,
        }) by {
            let id = k as int;
            if id < new {
                assert(created_ok(a.nodes@, ctx, id));
                let x = a.nodes@[id].from@[0];
                assert(b.nodes@[id].from@[0] == x);
                assert(a.nodes@[id].parent_edge(id) == Some(x));
                assert(b.nodes@[id].parent_edge(id) == Some(x));
                assert(b.chain(x.0.0 as int) == a.chain(x.0.0 as int));
                assert(a.cache@.contains_key(k) == (a.chain(x.0.0 as int) + 1 >= CACHE_STRIDE));
            }
        }
        assert forall|id: int| 0 <= id < b.nodes@.len() implies #[trigger] b.chain(id) < CACHE_STRIDE by {
            if id < new {
                assert(a.chain(id) < CACHE_STRIDE);
            }
        }
    }
}

/// Whether the third part of every waiting entry is the distance of its node to a stored
/// state.
#[verifier::opaque]
pub open spec fn chains<T: Bits>(states: Seq<(NodeId, State<T>, usize)>, graph: &Graph<T>, from: int) -> bool {
    forall|j: int| 0 <= j < states.len() ==> (#[trigger] states[j]).2 == graph.chain(from + j)
}

/// Whether the click `a` was recorded before the click `b`: in an older node, or in the
/// same node on a shape of lower index.
pub open spec fn edge_before(a: Edge, b: Edge) -> bool {
    a.0.0 < b.0.0 || (a.0.0 == b.0.0 && a.1.0 < b.1.0)
}

impl<T: Bits> Graph<T> {
    /// The edges of every node stand in the order in which their clicks were recorded,
    /// and so do the nodes, by the clicks that created them: the nodes are numbered
    /// breadth first.
    #[verifier::opaque]
    pub open spec fn ordered(&self) -> bool {
        &&& forall|m: int, j: int, k: int|
            0 <= m < self.nodes@.len() && 0 <= j < k < self.nodes@[m].from@.len() ==> edge_before(
                #[trigger] self.nodes@[m].from@[j],
                #[trigger] self.nodes@[m].from@[k],
            )
        &&& forall|i: int, j: int|
            0 < i < j < self.nodes@.len() && self.nodes@[i].from@.len() > 0 && self.nodes@[j].from@.len()
                > 0 ==> edge_before(#[trigger] self.nodes@[i].from@[0], #[trigger] self.nodes@[j].from@[0])
    }

    /// Every recorded click was made in a node before `parent`, or in `parent` on a shape
    /// below `bound`.
    #[verifier::opaque]
    pub open spec fn recorded_before(&self, parent: int, bound: int) -> bool {
        forall|m: int, k: int|
            0 <= m < self.nodes@.len() && 0 <= k < self.nodes@[m].from@.len() ==> {
                let e = #[trigger] self.nodes@[m].from@[k];
                e.0.0 < parent || (e.0.0 == parent && e.1.0 < bound)
            }
    }

    /// A graph without edges is in order.
    pub proof fn lemma_ordered_root(&self)
        requires
            self.nodes@.len() == 1,
            self.nodes@[0].from@.len() == 0,
        ensures
            self.ordered(),
            self.recorded_before(0, 0),
    {
        reveal(Graph::ordered);
        reveal(Graph::recorded_before);
    }

    /// What was recorded before a click was recorded before every later click.
    pub proof fn lemma_recorded_later(&self, parent: int, bound: int, later: int, higher: int)
        requires
            self.recorded_before(parent, bound),
            parent < later || (parent == later && bound <= higher),
        ensures
            self.recorded_before(later, higher),
    {
        reveal(Graph::recorded_before);
    }

    /// One more edge for the latest click keeps the graph in order.
    pub proof fn lemma_ordered_add_edge(a: &Self, b: &Self, m: int, e: Edge)
        requires
            a.ordered(),
            a.recorded_before(e.0.0 as int, e.1.0 as int),
            0 <= m < a.nodes@.len(),
            b.nodes@.len() == a.nodes@.len(),
            b.nodes@[m].from@ == a.nodes@[m].from@.push(e),
            forall|j: int| 0 <= j < a.nodes@.len() && j != m ==> b.nodes@[j] == a.nodes@[j],
            forall|j: int| 0 < j < a.nodes@.len() ==> (#[trigger] a.nodes@[j]).from@.len() > 0,
        ensures
            b.ordered(),
            b.recorded_before(e.0.0 as int, e.1.0 + 1),
    {
        reveal(Graph::ordered);
        reveal(Graph::recorded_before);
        let (an, bn) = (a.nodes@, b.nodes@);
        let last = an[m].from@.len() as int;
        assert forall|i: int, k: int| 0 <= i < bn.len() && 0 <= k < bn[i].from@.len() implies {
            let x = #[trigger] bn[i].from@[k];
            x.0.0 < e.0.0 || (x.0.0 == e.0.0 && x.1.0 < e.1.0 + 1)
        } by {
            if !(i == m && k == last) {
                assert(bn[i].from@[k] == an[i].from@[k]);
            }
        }
        assert forall|i: int, j: int, k: int|
            0 <= i < bn.len() && 0 <= j < k < bn[i].from@.len() implies edge_before(
            #[trigger] bn[i].from@[j],
            #[trigger] bn[i].from@[k],
        ) by {
            assert(bn[i].from@[j] == an[i].from@[j]);
            if !(i == m && k == last) {
                assert(bn[i].from@[k] == an[i].from@[k]);
            }
        }
        assert forall|i: int, j: int|
            0 < i < j < bn.len() && bn[i].from@.len() > 0 && bn[j].from@.len() > 0 implies edge_before(
            #[trigger] bn[i].from@[0],
            #[trigger] bn[j].from@[0],
        ) by {
            assert(an[i].from@.len() > 0 && an[j].from@.len() > 0);
            assert(bn[i].from@[0] == an[i].from@[0]);
            assert(bn[j].from@[0] == an[j].from@[0]);
        }
    }

    /// One more node for the latest click keeps the graph in order.
    pub proof fn lemma_ordered_push(a: &Self, b: &Self, e: Edge)
        requires
            a.ordered(),
            a.recorded_before(e.0.0 as int, e.1.0 as int),
            b.nodes@.len() == a.nodes@.len() + 1,
            forall|j: int| 0 <= j < a.nodes@.len() ==> b.nodes@[j] == a.nodes@[j],
            b.nodes@[a.nodes@.len() as int].from@ == seq![e],
            forall|j: int| 0 < j < a.nodes@.len() ==> (#[trigger] a.nodes@[j]).from@.len() > 0,
        ensures
            b.ordered(),
            b.recorded_before(e.0.0 as int, e.1.0 + 1),
    {
        reveal(Graph::ordered);
        reveal(Graph::recorded_before);
        let (an, bn) = (a.nodes@, b.nodes@);
        let id = an.len() as int;
        assert forall|i: int, k: int| 0 <= i < bn.len() && 0 <= k < bn[i].from@.len() implies {
            let x = #[trigger] bn[i].from@[k];
            x.0.0 < e.0.0 || (x.0.0 == e.0.0 && x.1.0 < e.1.0 + 1)
        } by {
            if i < id {
                assert(bn[i].from@[k] == an[i].from@[k]);
            }
        }
        assert forall|i: int, j: int, k: int|
            0 <= i < bn.len() && 0 <= j < k < bn[i].from@.len() implies edge_before(
            #[trigger] bn[i].from@[j],
            #[trigger] bn[i].from@[k],
        ) by {
            assert(bn[i] == an[i]);
        }
        assert forall|i: int, j: int|
            0 < i < j < bn.len() && bn[i].from@.len() > 0 && bn[j].from@.len() > 0 implies edge_before(
            #[trigger] bn[i].from@[0],
            #[trigger] bn[j].from@[0],
        ) by {
            assert(bn[i] == an[i]);
            if j < id {
                assert(bn[j] == an[j]);
            } else {
                assert(an[i].from@[0].0.0 < e.0.0 || (an[i].from@[0].0.0 == e.0.0 && an[i].from@[0].1.0
                    < e.1.0));
            }
        }
    }
}

/// The root alone waits when exploring starts.
proof fn lemma_waiting_start<T: Bits>(
    states: Seq<(NodeId, State<T>, usize)>,
    graph: &Graph<T>,
    ctx: &Context<T>,
)
    requires
        graph.nodes@.len() == 1,
        states.len() == 1,
        states[0].0.0 == 0,
        states[0].1.has_cap(ctx.cap as nat),
        states[0].1@ == ctx.root@,
        states[0].2 == 0,
    ensures
        waiting(states, graph.nodes@, ctx, 0),
{
    reveal(waiting);
}

/// The first of the waiting states is that of the next node to expand.
proof fn lemma_waiting_first<T: Bits>(
    states: Seq<(NodeId, State<T>, usize)>,
    nodes: Seq<Node>,
    ctx: &Context<T>,
    from: int,
)
    requires
        waiting(states, nodes, ctx, from),
        states.len() > 0,
    ensures
        from < nodes.len(),
        states[0].0.0 == from,
        states[0].1.has_cap(ctx.cap as nat),
        states[0].1@ == replay_in(nodes, ctx, from),
        states[0].2 < CACHE_STRIDE,
        waiting(states.subrange(1, states.len() as int), nodes, ctx, from + 1),
{
    reveal(waiting);
    let rest = states.subrange(1, states.len() as int);
    assert forall|j: int| 0 <= j < rest.len() implies {
        let entry = #[trigger] rest[j];
        &&& entry.0.0 == from + 1 + j
        &&& entry.1.has_cap(ctx.cap as nat)
        &&& entry.1@ == replay_in(nodes, ctx, from + 1 + j)
        &&& entry.2 < CACHE_STRIDE
    } by {
        assert(rest[j] == states[j + 1]);
    }
}

/// The third part of the first waiting entry is the distance of the next node to expand
/// to a stored state.
proof fn lemma_chains_first<T: Bits>(states: Seq<(NodeId, State<T>, usize)>, graph: &Graph<T>, from: int)
    requires
        chains(states, graph, from),
        states.len() > 0,
    ensures
        states[0].2 == graph.chain(from),
        chains(states.subrange(1, states.len() as int), graph, from + 1),
{
    reveal(chains);
    let rest = states.subrange(1, states.len() as int);
    assert forall|j: int| 0 <= j < rest.len() implies (#[trigger] rest[j]).2 == graph.chain(
        from + 1 + j,
    ) by {
        assert(rest[j] == states[j + 1]);
    }
}

/// When no state waits, every node was expanded, and the graph is closed.
proof fn lemma_explored_all<T: Bits>(
    states: Seq<(NodeId, State<T>, usize)>,
    graph: &Graph<T>,
    ctx: &Context<T>,
    done: int,
)
    requires
        waiting(states, graph.nodes@, ctx, done),
        states.len() == 0,
        graph.explored(ctx, done),
    ensures
        graph.wf(ctx),
        graph.sound(ctx),
        graph.closed(ctx),
{
    reveal(waiting);
    reveal(Graph::explored);
}

/// A node whose clicks are all recorded counts as expanded.
proof fn lemma_explored_next<T: Bits>(graph: &Graph<T>, ctx: &Context<T>, done: int)
    requires
        graph.explored(ctx, done),
        expanded(graph.nodes@, ctx, done),
    ensures
        graph.explored(ctx, done + 1),
{
    reveal(Graph::explored);
}

/// The candidate at position `k` of a list of the leading shapes is a leading shape, and
/// the shapes listed before it are the candidates that come before it.
proof fn lemma_candidate(s: StateView, n: nat, ids: Seq<ShapeId>, k: int)
    requires
        s.wf(),
        s.clear_past(n),
        lists_leading(s, ids, s.len() as int),
        0 <= k < ids.len(),
    ensures
        s.leading(ids[k].0 as int),
        ids[k].0 < n,
        s.cleared_before(ids[k].0 as int, indices(ids.take(k))),
        forall|j: int| 0 <= j < k ==> (#[trigger] ids.take(k)[j]).0 < n,
        k + 1 < ids.len() ==> ids[k].0 < ids[k + 1].0,
        increasing(ids.take(k)),
{
    reveal(lists_leading);
    lemma_leading_prefix(s, ids, k);
    lemma_leading_is_shape(s, n, ids[k].0 as int);
    assert forall|j: int| 0 <= j < k implies (#[trigger] ids.take(k)[j]).0 < n by {
        assert(s.leading(ids[j].0 as int));
        lemma_leading_is_shape(s, n, ids[j].0 as int);
    }
}

/// Once every listed candidate of node `p` has its edge, node `p` is expanded.
proof fn lemma_all_recorded<T: Bits>(nodes: Seq<Node>, ctx: &Context<T>, p: int, ids: Seq<ShapeId>)
    requires
        lists_leading(settled(nodes, ctx, p), ids, settled(nodes, ctx, p).len() as int),
        forall|j: int| 0 <= j < ids.len() ==> has_edge(nodes, p, (#[trigger] ids[j]).0 as int),
    ensures
        expanded(nodes, ctx, p),
{
    reveal(lists_leading);
    assert forall|s: int| #[trigger] settled(nodes, ctx, p).leading(s) implies has_edge(
        nodes,
        p,
        s,
    ) by {
        assert(indices(ids).contains(s));
        let j = choose|j: int| 0 <= j < indices(ids).len() && indices(ids)[j] == s;
        assert(ids[j].0 == s);
    }
}

/// Records in `graph` a click on shape `first` in the settled state of the node
/// `parent_id`, whose outcome is `next`: as one more edge into a node whose state subsumes
/// `next`, or else as a node of its own, which then waits in `states` to be expanded.
fn record<T: Bits>(
    graph: &mut Graph<T>,
    ctx: &Context<T>,
    arena: &mut Arena<T>,
    states: &mut VecDeque<(NodeId, State<T>, usize)>,
    parent_id: NodeId,
    next: State<T>,
    first: ShapeId,
    forced: &Vec<ShapeId>,
    prevs: &Vec<ShapeId>,
    chain: usize,
    max_nodes: u32,
) -> (r: Result<(), Error>)
    requires
        ctx.wf(),
        old(arena).has_cap(ctx.cap as nat),
        old(graph).explored(ctx, parent_id.0 as int),
        old(graph).unique(ctx),
        old(graph).exact(ctx),
        old(graph).ordered(),
        old(graph).recorded_before(parent_id.0 as int, first.0 as int),
        old(graph).stored_by_stride(),
        old(graph).filed_in_order(ctx),
        parent_id.0 < old(graph).nodes@.len() <= max_nodes,
        waiting(old(states)@, old(graph).nodes@, ctx, parent_id.0 + 1),
        chains(old(states)@, &*old(graph), parent_id.0 + 1),
        next.has_cap(ctx.cap as nat),
        chain == old(graph).chain(parent_id.0 as int),
        chain < CACHE_STRIDE,
        settled(old(graph).nodes@, ctx, parent_id.0 as int).leading(first.0 as int),
        settled(old(graph).nodes@, ctx, parent_id.0 as int).cleared_before(
            first.0 as int,
            indices(prevs@),
        ),
        indices(forced@) == old(graph).replay(ctx, parent_id.0 as int).forced(ctx, FORWARD_LIMIT as nat),
        increasing(prevs@),
        forall|k: int| 0 <= k < prevs@.len() ==> (#[trigger] prevs@[k]).0 < ctx.n,
        forall|k: int| 0 <= k < forced@.len() ==> (#[trigger] forced@[k]).0 < ctx.n,
        next@ == settled(old(graph).nodes@, ctx, parent_id.0 as int).click(
            ctx.actions_of(first.0 as int),
            first.0 as int,
        ),
    ensures
        final(arena).has_cap(ctx.cap as nat),
        match r {
            Ok(()) => {
                &&& final(graph).explored(ctx, parent_id.0 as int)
                &&& final(graph).unique(ctx)
                &&& final(graph).exact(ctx)
                &&& final(graph).ordered()
                &&& final(graph).recorded_before(parent_id.0 as int, first.0 + 1)
                &&& final(graph).stored_by_stride()
                &&& final(graph).filed_in_order(ctx)
                &&& chains(final(states)@, &*final(graph), parent_id.0 + 1)
                &&& final(graph).chain(parent_id.0 as int) == old(graph).chain(parent_id.0 as int)
                &&& extends(old(graph).nodes@, final(graph).nodes@)
                &&& final(graph).nodes@.len() <= max_nodes
                &&& waiting(final(states)@, final(graph).nodes@, ctx, parent_id.0 + 1)
                &&& has_edge(final(graph).nodes@, parent_id.0 as int, first.0 as int)
                &&& forall|s: int| #[trigger]
                    has_edge(old(graph).nodes@, parent_id.0 as int, s) ==> has_edge(
                        final(graph).nodes@,
                        parent_id.0 as int,
                        s,
                    )
                &&& final(graph).replay(ctx, parent_id.0 as int) == old(graph).replay(
                    ctx,
                    parent_id.0 as int,
                )
                &&& settled(final(graph).nodes@, ctx, parent_id.0 as int) == settled(
                    old(graph).nodes@,
                    ctx,
                    parent_id.0 as int,
                )
                &&& 2 * (max_nodes - final(graph).nodes@.len()) + final(states)@.len() <= 2 * (max_nodes
                    - old(graph).nodes@.len()) + old(states)@.len()
            },
            Err(e) => e == Error::CapacityExceeded && old(graph).nodes@.len() == max_nodes && old(
                graph,
            ).overflows(ctx),
        },
{
    proof {
        reveal(waiting);
        reveal(chains);
        reveal(Graph::explored);
    }
    let ghost before = *graph;
    let ghost edge = Edge(parent_id, first);
    let ghost done = parent_id.0 as int;
    let found = graph.merge(ctx, arena, &next);
    proof {
        assert forall|j: int| 0 < j < graph.nodes@.len() implies (#[trigger] graph.nodes@[j]).from@.len()
            > 0 by {
            assert(created_ok(graph.nodes@, ctx, j));
        }
        lemma_replay_clear(graph.nodes@, ctx, done);
        lemma_leading_is_shape(settled(graph.nodes@, ctx, done), ctx.n as nat, first.0 as int);
        let candidates = graph.bucket(Graph::key(ctx, &next));
        graph.lemma_scan(ctx, candidates, 0, next@);
        graph.lemma_scan_is_search(ctx, candidates, 0, next@);
    }
    match found {
        Err(e) => Err(e),
        Ok(Some(next_id)) => {
            graph.add_edge(next_id, parent_id, first);
            proof {
                Graph::lemma_add_edge_keeps(&before, &*graph, ctx, done, next_id.0 as int, edge);
                Graph::lemma_unique_add_edge(&before, &*graph, ctx);
                Graph::lemma_exact_add_edge(&before, &*graph, ctx, next_id.0 as int, edge, &next);
                Graph::lemma_ordered_add_edge(&before, &*graph, next_id.0 as int, edge);
                Graph::lemma_stored_add_edge(&before, &*graph, ctx);
                Graph::lemma_filed_add_edge(&before, &*graph, ctx);
                lemma_extends_replays(before.nodes@, graph.nodes@, ctx);
                lemma_extends_settled(before.nodes@, graph.nodes@, ctx);
                assert forall|s: int| #[trigger]
                    has_edge(before.nodes@, done, s) implies has_edge(graph.nodes@, done, s) by {
                    lemma_extends_edge(before.nodes@, graph.nodes@, done, s);
                }
            }
            Ok(())
        },
        Ok(None) => {
            proof {
                assert forall|m: int| 0 <= m < graph.nodes@.len() implies #[trigger] graph.replay(ctx, m)
                    != next@ by {
                    graph.lemma_not_merged(ctx, &next, m);
                }
            }
            if graph.nodes.len() >= max_nodes as usize {
                proof {
                    assert(settled(graph.nodes@, ctx, done).leading(first.0 as int));
                    assert(graph.overflows(ctx));
                }
                return Err(Error::CapacityExceeded);
            }
            let store = chain + 1 >= CACHE_STRIDE;
            let next_id = graph.push(ctx, &next, parent_id, first, copy_ids(forced), copy_ids(prevs), store);
            proof {
                assert forall|h: u64, j: int| 0 <= j < graph.bucket(h).len() implies (
                #[trigger] graph.bucket(h)[j]).0 < graph.nodes@.len() by {
                    if h != Graph::key(ctx, &next) || j < before.bucket(h).len() {
                        assert(graph.bucket(h)[j] == before.bucket(h)[j]);
                    }
                }
                Graph::lemma_push_keeps(&before, &*graph, ctx, done, edge);
                Graph::lemma_unique_push(&before, &*graph, ctx, &next);
                Graph::lemma_exact_push(&before, &*graph, ctx, edge, &next);
                Graph::lemma_ordered_push(&before, &*graph, edge);
                Graph::lemma_stored_push(&before, &*graph, ctx, edge, store);
                Graph::lemma_filed_push(&before, &*graph, ctx, &next);
                lemma_extends_replays(before.nodes@, graph.nodes@, ctx);
                lemma_extends_settled(before.nodes@, graph.nodes@, ctx);
                assert forall|s: int| #[trigger]
                    has_edge(before.nodes@, done, s) implies has_edge(graph.nodes@, done, s) by {
                    lemma_extends_edge(before.nodes@, graph.nodes@, done, s);
                }
            }
            let left = if store {
                0
            } else {
                chain + 1
            };
            states.push_back((next_id, next, left));
            Ok(())
        },
    }
}

/// Whether `partial` shows that `max_nodes` nodes are not enough for `ctx`: it is a well
/// formed graph of that many nodes, all with different states, every edge justified, and
/// some click that is possible in one of its nodes gives a state that none of them has.
pub open spec fn too_small<T: Bits>(partial: &Graph<T>, ctx: &Context<T>, max_nodes: u32) -> bool {
    &&& partial.wf(ctx)
    &&& partial.sound(ctx)
    &&& partial.distinct(ctx)
    &&& partial.nodes@.len() == max_nodes
    &&& partial.overflows(ctx)
}

/// A graph that was explored so far and cannot take the next state is too small.
proof fn lemma_too_small<T: Bits>(graph: &Graph<T>, ctx: &Context<T>, done: int, max_nodes: u32)
    requires
        graph.explored(ctx, done),
        graph.unique(ctx),
        graph.nodes@.len() == max_nodes,
        graph.overflows(ctx),
    ensures
        too_small(graph, ctx, max_nodes),
{
    reveal(Graph::explored);
    reveal(Graph::unique);
}

/// The states of the nodes of an explored graph differ.
proof fn lemma_unique_distinct<T: Bits>(graph: &Graph<T>, ctx: &Context<T>)
    requires
        graph.unique(ctx),
    ensures
        graph.distinct(ctx),
{
    reveal(Graph::unique);
}

/// Builds the graph of the states that clicks on shapes can reach from the root of `ctx`.
///
/// Nodes are expanded in the order of their creation. The state of a node is first
/// settled: as long as it leaves no choice, its only candidate is clicked, at most
/// `FORWARD_LIMIT` times. Then, for every shape that a click on the focus point may
/// trigger, the state after that click is looked up among the nodes with the same hash;
/// if the state of one of them subsumes it, the click becomes one more edge into the
/// oldest such node, else it creates a node.
///
/// The graph that comes back is well formed; every edge of it is justified and leads to
/// the oldest node that can take its click; every click that is possible in a node is
/// recorded; no two nodes have the same state; nodes and edges stand in the order in
/// which their clicks were recorded; every node is filed under the hash of its state,
/// oldest first; and a state is stored whole wherever rebuilding it would otherwise take
/// `CACHE_STRIDE` clicks.
///
/// Exploring stops with `CapacityExceeded` when a node would be needed beyond `max_nodes`.
/// The graph built so far then has `max_nodes` nodes with different states, and a click
/// that leads to yet another state: a scene with no more than `max_nodes` different
/// reachable states always compiles.
pub fn compile<T: Bits>(ctx: &Context<T>, max_nodes: u32) -> (r: Result<Graph<T>, Error>)
    requires
        ctx.wf(),
    ensures
        match r {
            Ok(graph) => {
                &&& graph.wf(ctx)
                &&& graph.sound(ctx)
                &&& graph.closed(ctx)
                &&& graph.distinct(ctx)
                &&& graph.unique(ctx)
                &&& graph.filed_in_order(ctx)
                &&& graph.exact(ctx)
                &&& graph.ordered()
                &&& graph.stored_by_stride()
                &&& graph.nodes@.len() <= max_nodes
            },
            Err(e) => e == Error::CapacityExceeded && (max_nodes == 0 || exists|partial: Graph<T>|
                too_small(&partial, ctx, max_nodes)),
        },
{
    if max_nodes == 0 {
        return Err(Error::CapacityExceeded);
    }
    let mut graph = Graph::new(ctx);
    let mut arena = Arena::new(ctx.cap);
    let mut states: VecDeque<(NodeId, State<T>, usize)> = VecDeque::new();
    states.push_back((NodeId::new(0), ctx.root.clone(), 0));
    let mut firsts: Vec<ShapeId> = Vec::new();
    let mut done: usize = 0;
    proof {
        lemma_waiting_start(states@, &graph, ctx);
        reveal(chains);
    }
    loop
        invariant
            ctx.wf(),
            arena.has_cap(ctx.cap as nat),
            graph.explored(ctx, done as int),
            graph.unique(ctx),
            graph.exact(ctx),
            graph.ordered(),
            graph.recorded_before(done as int, 0),
            graph.stored_by_stride(),
            graph.filed_in_order(ctx),
            graph.nodes@.len() <= max_nodes,
            waiting(states@, graph.nodes@, ctx, done as int),
            chains(states@, &graph, done as int),
        decreases 2 * (max_nodes - graph.nodes@.len()) + states@.len(),
    {
        let ghost budget = 2 * (max_nodes - graph.nodes@.len()) + states@.len();
        let ghost queued = states@;
        let (parent_id, parent, chain) = match states.pop_front() {
            Some(entry) => entry,
            None => {
                proof {
                    lemma_explored_all(states@, &graph, ctx, done as int);
                    lemma_unique_distinct(&graph, ctx);
                }
                return Ok(graph);
            },
        };
        proof {
            lemma_waiting_first(queued, graph.nodes@, ctx, done as int);
            lemma_chains_first(queued, &graph, done as int);
            lemma_settled_len(graph.nodes@, ctx, done as int);
            lemma_replay_clear(graph.nodes@, ctx, done as int);
        }
        let mut parent = parent;
        let forced = parent.forward(ctx, &mut firsts, FORWARD_LIMIT);
        proof {
            lemma_settled(graph.nodes@, ctx, done as int);
        }
        let mut prevs: Vec<ShapeId> = Vec::new();
        let mut i: usize = 0;
        proof {
            if firsts@.len() > 0 {
                graph.lemma_recorded_later(done as int, 0, done as int, firsts@[0].0 as int);
            } else {
                graph.lemma_recorded_later(done as int, 0, done + 1, 0);
            }
        }
        while i < firsts.len()
            invariant
                i <= firsts@.len(),
                ctx.wf(),
                arena.has_cap(ctx.cap as nat),
                graph.explored(ctx, done as int),
                graph.unique(ctx),
                graph.exact(ctx),
                graph.ordered(),
                graph.stored_by_stride(),
                graph.filed_in_order(ctx),
                chains(states@, &graph, done + 1),
                chain == graph.chain(done as int),
                i < firsts@.len() ==> graph.recorded_before(done as int, firsts@[i as int].0 as int),
                i == firsts@.len() ==> graph.recorded_before(done + 1, 0),
                graph.nodes@.len() <= max_nodes,
                done < graph.nodes@.len(),
                waiting(states@, graph.nodes@, ctx, done + 1),
                2 * (max_nodes - graph.nodes@.len()) + states@.len() < budget,
                parent_id.0 == done,
                parent.has_cap(ctx.cap as nat),
                parent@ == settled(graph.nodes@, ctx, done as int),
                indices(forced@) == replay_in(graph.nodes@, ctx, done as int).forced(
                    ctx,
                    FORWARD_LIMIT as nat,
                ),
                forall|k: int| 0 <= k < forced@.len() ==> (#[trigger] forced@[k]).0 < ctx.n,
                parent@.wf(),
                parent@.len() == ctx.bits(),
                parent@.clear_past(ctx.n as nat),
                chain < CACHE_STRIDE,
                lists_leading(parent@, firsts@, parent@.len() as int),
                prevs@ == firsts@.take(i as int),
                forall|j: int|
                    0 <= j < i ==> has_edge(graph.nodes@, done as int, (#[trigger] firsts@[j]).0 as int),
            decreases firsts@.len() - i,
        {
            let first = firsts[i];
            let mut next = parent.clone();
            proof {
                lemma_candidate(parent@, ctx.n as nat, firsts@, i as int);
                lemma_clicked_is_click(
                    parent@,
                    ctx.actions_of(first.0 as int),
                    first.0 as int,
                    indices(prevs@),
                );
            }
            next.apply(ctx, first, prevs.as_slice());
            let ghost before = graph;
            match record(
                &mut graph,
                ctx,
                &mut arena,
                &mut states,
                parent_id,
                next,
                first,
                &forced,
                &prevs,
                chain,
                max_nodes,
            ) {
                Ok(()) => {},
                Err(e) => {
                    proof {
                        lemma_too_small(&before, ctx, done as int, max_nodes);
                    }
                    return Err(e);
                },
            }
            proof {
                if i + 1 < firsts@.len() {
                    graph.lemma_recorded_later(
                        done as int,
                        first.0 + 1,
                        done as int,
                        firsts@[i + 1].0 as int,
                    );
                } else {
                    graph.lemma_recorded_later(done as int, first.0 + 1, done + 1, 0);
                }
                assert forall|j: int| 0 <= j < i + 1 implies has_edge(
                    graph.nodes@,
                    done as int,
                    (#[trigger] firsts@[j]).0 as int,
                ) by {
                    if j < i {
                        assert(has_edge(before.nodes@, done as int, firsts@[j].0 as int));
                    }
                }
                assert(firsts@.take(i + 1) =~= firsts@.take(i as int).push(first));
            }
            prevs.push(first);
            i += 1;
        }
        proof {
            lemma_all_recorded(graph.nodes@, ctx, done as int, firsts@);
            lemma_explored_next(&graph, ctx, done as int);
        }
        done += 1;
    }
}

} // verus!
