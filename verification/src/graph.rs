//! The graph of reachable states.
//!
//! Node 0 is the root. Every other node records the clicks that lead to it as edges
//! `(parent, shape)`; its state is not stored but rebuilt from the edge that created it.

use crate::action::{actions_diff, lemma_actions_diff_covers, step_diff, Action, Diff, Tri};
use crate::bits::Bits;
use crate::bitvec::{lemma_index_split, BitVec};
use crate::compiler::{
    lemma_clicked_is_click, lemma_patch_compose, lemma_shapes_diff_covers, shapes_diff, Context, State,
    StateView,
};
use crate::error::Error;
use crate::ids::{indices, NodeId, ShapeId};
use std::collections::hash_map::DefaultHasher;
use std::collections::HashMap;
use std::hash::Hasher;
use vstd::bytes::{spec_u64_to_le_bytes, u64_to_le_bytes};
use vstd::std_specs::hash::DefaultHasherAdditionalSpecFns;
use vstd::prelude::*;

verus! {

/// How many clicks are played at most on a state that leaves no choice, before the state
/// that is reached is expanded.
pub const FORWARD_LIMIT: usize = 16;

/// A click that leads to a node: the node it was made in, and the shape that was clicked.
#[derive(Clone, Copy, Debug, PartialEq, Eq, Structural)]
pub struct Edge(pub NodeId, pub ShapeId);

/// The edges that lead to one node, kept without allocation while they are few.
#[derive(Debug)]
pub enum Edges {
    Zero,
    One([Edge; 1]),
    Two([Edge; 2]),
    Many(Vec<Edge>),
}

impl View for Edges {
    type V = Seq<Edge>;

    open spec fn view(&self) -> Seq<Edge> {
        match self {
            Edges::Zero => Seq::empty(),
            Edges::One(edges) => edges@,
            Edges::Two(edges) => edges@,
            Edges::Many(edges) => edges@,
        }
    }
}

impl Edges {
    /// Adds the edge `(node_id, shape_id)` after those already there.
    pub fn push(&mut self, node_id: NodeId, shape_id: ShapeId)
        ensures
            final(self)@ == old(self)@.push(Edge(node_id, shape_id)),
    {
        let edge = Edge(node_id, shape_id);
        match self {
            Edges::Zero => {
                *self = Edges::One([edge]);
            },
            Edges::One(edges) => {
                let e0 = edges[0];
                *self = Edges::Two([e0, edge]);
            },
            Edges::Two(edges) => {
                let mut many = Vec::new();
                many.push(edges[0]);
                many.push(edges[1]);
                many.push(edge);
                *self = Edges::Many(many);
            },
            Edges::Many(edges) => {
                edges.push(edge);
            },
        }
        assert(self@ =~= old(self)@.push(Edge(node_id, shape_id)));
    }

    /// The edges, oldest first.
    pub fn as_slice(&self) -> (r: &[Edge])
        ensures
            r@ == self@,
    {
        match self {
            Edges::Zero => &[],
            Edges::One(edges) => edges.as_slice(),
            Edges::Two(edges) => edges.as_slice(),
            Edges::Many(edges) => edges.as_slice(),
        }
    }
}

/// The first edge from position `k` on whose parent is older than node `id`.
pub open spec fn first_below(edges: Seq<Edge>, id: int, k: int) -> Option<Edge>
    decreases edges.len() - k,
{
    if k < 0 || k >= edges.len() {
        None
    } else if edges[k].0.0 < id {
        Some(edges[k])
    } else {
        first_below(edges, id, k + 1)
    }
}

/// A node of the graph.
#[derive(Debug)]
pub struct Node {
    /// The clicks that lead here. The first one created the node.
    pub from: Edges,
    /// The clicks that were forced on the state of the parent before the creating click:
    /// the shapes that were clicked because the state left no choice.
    pub forced: Vec<ShapeId>,
    /// The shapes that the creating click found to be hidden: the unknown candidates that
    /// come before the clicked shape.
    pub cleared: Vec<ShapeId>,
}

impl Node {
    /// The node that a click on `shape_id` in node `parent_id` creates, when no click is
    /// forced on the state of the parent and no candidate comes before that shape.
    pub fn new(parent_id: NodeId, shape_id: ShapeId) -> (r: Self)
        ensures
            r.from@ == seq![Edge(parent_id, shape_id)],
            r.forced@ == Seq::<ShapeId>::empty(),
            r.cleared@ == Seq::<ShapeId>::empty(),
    {
        Node { from: Edges::One([Edge(parent_id, shape_id)]), forced: Vec::new(), cleared: Vec::new() }
    }

    /// The node that a click on `shape_id` creates in the state that node `parent_id` is
    /// in after the forced clicks on `forced`, when the candidates in `cleared` come
    /// before that shape.
    pub fn reached(
        parent_id: NodeId,
        shape_id: ShapeId,
        forced: Vec<ShapeId>,
        cleared: Vec<ShapeId>,
    ) -> (r: Self)
        ensures
            r.from@ == seq![Edge(parent_id, shape_id)],
            r.forced == forced,
            r.cleared == cleared,
    {
        Node { from: Edges::One([Edge(parent_id, shape_id)]), forced, cleared }
    }

    /// The edge from which the state of this node, which has the identity `id`, is
    /// rebuilt: the oldest one whose parent is older than the node.
    pub open spec fn parent_edge(&self, id: int) -> Option<Edge> {
        first_below(self.from@, id, 0)
    }

    /// The edge from which the state of this node is rebuilt, if it has one.
    pub fn find_parent(&self, id: NodeId) -> (r: Option<Edge>)
        ensures
            r == self.parent_edge(id.0 as int),
    {
        let edges = self.from.as_slice();
        let mut k: usize = 0;
        while k < edges.len()
            invariant
                k <= edges@.len(),
                edges@ == self.from@,
                first_below(edges@, id.0 as int, 0) == first_below(edges@, id.0 as int, k as int),
            decreases edges@.len() - k,
        {
            let edge = edges[k];
            if edge.0.index() < id.index() {
                return Some(edge);
            }
            k += 1;
        }
        None
    }
}

/// Four masks that accumulate a [`Diff`] while a state is rebuilt.
#[derive(Debug)]
pub struct Arena<T: Bits> {
    set_t: BitVec<T>,
    unset_t: BitVec<T>,
    set_v: BitVec<T>,
    unset_v: BitVec<T>,
}

impl<T: Bits> Arena<T> {
    /// The four masks have `cap` chunks each.
    pub closed spec fn has_cap(&self, cap: nat) -> bool {
        &&& self.set_t.chunks@.len() == cap
        &&& self.unset_t.chunks@.len() == cap
        &&& self.set_v.chunks@.len() == cap
        &&& self.unset_v.chunks@.len() == cap
    }

    /// No position is both set and unset.
    pub closed spec fn wf(&self) -> bool {
        forall|i: int|
            0 <= i < self.set_t@.len() ==> !(self.set_t@[i] && self.unset_t@[i]) && !(self.set_v@[i]
                && self.unset_v@[i])
    }

    /// The decisions that the masks hold.
    pub closed spec fn diff(&self) -> Diff {
        Diff {
            t: Seq::new(self.set_t@.len(), |i: int| Tri::from_masks(self.set_t@[i], self.unset_t@[i])),
            v: Seq::new(self.set_v@.len(), |i: int| Tri::from_masks(self.set_v@[i], self.unset_v@[i])),
        }
    }

    /// Four masks of `cap` chunks that decide nothing.
    pub fn new(cap: usize) -> (r: Self)
        ensures
            r.has_cap(cap as nat),
            r.wf(),
            r.diff() == Diff::none(cap as nat * T::width()),
    {
        let r = Arena {
            set_t: BitVec::new(cap),
            unset_t: BitVec::new(cap),
            set_v: BitVec::new(cap),
            unset_v: BitVec::new(cap),
        };
        assert(r.diff() =~= Diff::none(cap as nat * T::width()));
        r
    }

    /// Forgets every decision.
    fn reset(&mut self, Ghost(cap): Ghost<nat>)
        requires
            old(self).has_cap(cap),
        ensures
            final(self).has_cap(cap),
            final(self).wf(),
            final(self).diff() == Diff::none(cap * T::width()),
    {
        self.set_t.clear();
        self.unset_t.clear();
        self.set_v.clear();
        self.unset_v.clear();
        assert(self.diff() =~= Diff::none(cap * T::width()));
    }

    /// Puts the decisions of `action` before those already held: where the masks decide
    /// already, they stay as they are.
    fn absorb_action(&mut self, action: &Action<T>)
        requires
            old(self).has_cap(old(self).set_t.chunks@.len()),
            old(self).wf(),
            action.wf(),
            action.chunk < old(self).set_t.chunks@.len(),
        ensures
            final(self).has_cap(old(self).set_t.chunks@.len()),
            final(self).wf(),
            final(self).diff() == action.diff(old(self).set_t.bits()).followed_by(old(self).diff()),
    {
        let c = action.chunk;
        let decided_t = self.set_t.get_chunk(c).or(self.unset_t.get_chunk(c));
        let decided_v = self.set_v.get_chunk(c).or(self.unset_v.get_chunk(c));
        let free_t = decided_t.not();
        let free_v = decided_v.not();
        let ghost len = self.set_t.bits();
        proof {
            T::lemma_width_positive();
            let w = T::width() as int;
            let n = self.set_t.chunks@.len() as int;
            assert forall|i: int| 0 <= i < len && i / w == c implies free_t.bit(i % w) == !(
            old(self).set_t@[i] || old(self).unset_t@[i]) && free_v.bit(i % w) == !(old(self).set_v@[i]
                || old(self).unset_v@[i]) by {
                lemma_index_split(i, w, n);
                assert(decided_t.bit(i % w) == (old(self).set_t.bit(i) || old(self).unset_t.bit(i)));
                assert(decided_v.bit(i % w) == (old(self).set_v.bit(i) || old(self).unset_v.bit(i)));
            }
        }
        let st = action.set_t.and(free_t);
        let ut = action.unset_t.and(free_t);
        let sv = action.set_v.and(free_v);
        let uv = action.unset_v.and(free_v);
        self.set_t.or_chunk(c, st);
        self.unset_t.or_chunk(c, ut);
        self.set_v.or_chunk(c, sv);
        self.unset_v.or_chunk(c, uv);
        proof {
            let w = T::width() as int;
            let n = self.set_t.chunks@.len() as int;
            let goal = action.diff(len).followed_by(old(self).diff());
            assert forall|i: int| 0 <= i < len implies self.diff().t[i] == goal.t[i] && self.diff().v[i]
                == goal.v[i] && !(self.set_t@[i] && self.unset_t@[i]) && !(self.set_v@[i]
                && self.unset_v@[i]) by {
                lemma_index_split(i, w, n);
            }
            assert(self.diff().t =~= goal.t);
            assert(self.diff().v =~= goal.v);
        }
    }

    /// Puts "shape `p` is hidden" before the decisions already held.
    fn absorb_hidden(&mut self, p: usize)
        requires
            old(self).has_cap(old(self).set_t.chunks@.len()),
            old(self).wf(),
            p < old(self).set_t.bits(),
        ensures
            final(self).has_cap(old(self).set_t.chunks@.len()),
            final(self).wf(),
            final(self).diff() == Diff::hiding(seq![p as int], old(self).set_t.bits()).followed_by(
                old(self).diff(),
            ),
    {
        let ghost len = self.set_t.bits();
        if !self.set_v.get(p) {
            self.unset_v.set(p);
        }
        proof {
            let goal = Diff::hiding(seq![p as int], len).followed_by(old(self).diff());
            assert forall|i: int| 0 <= i < len implies seq![p as int].contains(i) == (i == p) by {
                if i == p {
                    assert(seq![p as int][0] == i);
                }
            }
            assert(self.diff().t =~= goal.t);
            assert(self.diff().v =~= goal.v);
        }
    }
}

/// Putting an action in front of a list puts its decisions before those of the list.
pub proof fn lemma_actions_diff_prepend<T: Bits>(a: Action<T>, rest: Seq<Action<T>>, len: nat)
    ensures
        actions_diff(seq![a] + rest, len) == a.diff(len).followed_by(actions_diff(rest, len)),
    decreases rest.len(),
{
    let all = seq![a] + rest;
    if rest.len() == 0 {
        assert(all.drop_last() =~= Seq::<Action<T>>::empty());
        assert(all.last() == a);
        assert(actions_diff(all.drop_last(), len) == Diff::none(len));
        assert(actions_diff(rest, len) == Diff::none(len));
        assert(actions_diff(all, len) == Diff::none(len).followed_by(a.diff(len)));
        assert(Diff::none(len).followed_by(a.diff(len)) =~= a.diff(len).followed_by(Diff::none(len)));
    } else {
        assert(all.drop_last() =~= seq![a] + rest.drop_last());
        assert(all.last() == rest.last());
        lemma_actions_diff_prepend(a, rest.drop_last(), len);
        lemma_actions_diff_covers(rest.drop_last(), len);
        assert(actions_diff(all, len) =~= a.diff(len).followed_by(actions_diff(rest, len)));
    }
}

/// A click in front of a list of clicks puts its decisions before those of the list.
pub proof fn lemma_shapes_diff_prepend<T: Bits>(ctx: &Context<T>, shape: int, rest: Seq<int>, len: nat)
    ensures
        shapes_diff(ctx, seq![shape] + rest, len) == step_diff(
            ctx.actions_of(shape),
            Seq::empty(),
            len,
        ).followed_by(shapes_diff(ctx, rest, len)),
    decreases rest.len(),
{
    let all = seq![shape] + rest;
    let step = step_diff(ctx.actions_of(shape), Seq::empty(), len);
    lemma_actions_diff_covers(ctx.actions_of(shape), len);
    if rest.len() == 0 {
        assert(all.drop_last() =~= Seq::<int>::empty());
        assert(all.last() == shape);
        assert(shapes_diff(ctx, all.drop_last(), len) == Diff::none(len));
        assert(shapes_diff(ctx, rest, len) == Diff::none(len));
        assert(shapes_diff(ctx, all, len) == Diff::none(len).followed_by(step));
        assert(Diff::none(len).followed_by(step) =~= step.followed_by(Diff::none(len)));
    } else {
        assert(all.drop_last() =~= seq![shape] + rest.drop_last());
        assert(all.last() == rest.last());
        lemma_shapes_diff_prepend(ctx, shape, rest.drop_last(), len);
        lemma_shapes_diff_covers(ctx, rest.drop_last(), len);
        lemma_actions_diff_covers(ctx.actions_of(rest.last()), len);
        assert(shapes_diff(ctx, all, len) =~= step.followed_by(shapes_diff(ctx, rest, len)));
    }
}

impl<T: Bits> Arena<T> {
    /// Puts one click before the decisions already held: the shapes of `cleared` found
    /// hidden, then `actions` in order.
    fn absorb_step(&mut self, actions: &Vec<Action<T>>, cleared: &Vec<ShapeId>, Ghost(cap): Ghost<nat>)
        requires
            old(self).has_cap(cap),
            old(self).wf(),
            forall|k: int| 0 <= k < actions@.len() ==> (#[trigger] actions@[k]).wf() && actions@[k].chunk < cap,
            forall|k: int| 0 <= k < cleared@.len() ==> (#[trigger] cleared@[k]).0 < cap * T::width(),
        ensures
            final(self).has_cap(cap),
            final(self).wf(),
            final(self).diff() == step_diff(actions@, indices(cleared@), cap * T::width()).followed_by(
                old(self).diff(),
            ),
    {
        let ghost len = cap * T::width();
        let ghost d0 = self.diff();
        let mut k: usize = actions.len();
        assert(actions@.skip(k as int) =~= Seq::<Action<T>>::empty());
        assert(self.diff() =~= actions_diff(actions@.skip(k as int), len).followed_by(d0));
        while k > 0
            invariant
                k <= actions@.len(),
                self.has_cap(cap),
                self.wf(),
                len == cap * T::width(),
                len == self.set_t.bits(),
                d0.covers(len),
                forall|k: int|
                    0 <= k < actions@.len() ==> (#[trigger] actions@[k]).wf() && actions@[k].chunk < cap,
                self.diff() == actions_diff(actions@.skip(k as int), len).followed_by(d0),
            decreases k,
        {
            k -= 1;
            let ghost rest = actions@.skip(k + 1);
            let ghost a = actions@[k as int];
            self.absorb_action(&actions[k]);
            proof {
                assert(actions@.skip(k as int) =~= seq![a] + rest);
                lemma_actions_diff_prepend(a, rest, len);
                lemma_actions_diff_covers(rest, len);
                assert(a.diff(len).followed_by(actions_diff(rest, len).followed_by(d0))
                    =~= a.diff(len).followed_by(actions_diff(rest, len)).followed_by(d0));
            }
        }
        assert(actions@.skip(0) =~= actions@);
        let ghost d1 = self.diff();
        let mut j: usize = 0;
        assert(Diff::hiding(indices(cleared@.take(0)), len).followed_by(d1) =~= d1);
        while j < cleared.len()
            invariant
                j <= cleared@.len(),
                self.has_cap(cap),
                self.wf(),
                len == cap * T::width(),
                len == self.set_t.bits(),
                d1.covers(len),
                forall|k: int| 0 <= k < cleared@.len() ==> (#[trigger] cleared@[k]).0 < cap * T::width(),
                self.diff() == Diff::hiding(indices(cleared@.take(j as int)), len).followed_by(d1),
            decreases cleared@.len() - j,
        {
            let p = cleared[j].index();
            self.absorb_hidden(p);
            proof {
                let seen = indices(cleared@.take(j as int));
                let more = indices(cleared@.take(j + 1));
                assert(more =~= seen.push(p as int));
                assert forall|i: int| more.contains(i) == (seen.contains(i) || i == p) by {
                    if seen.contains(i) {
                        let m = choose|m: int| 0 <= m < seen.len() && seen[m] == i;
                        assert(more[m] == i);
                    }
                    assert(more[j as int] == p);
                }
                assert forall|i: int| seq![p as int].contains(i) == (i == p) by {
                    assert(seq![p as int][0] == p);
                }
                assert(Diff::hiding(seq![p as int], len).followed_by(
                    Diff::hiding(seen, len).followed_by(d1),
                ) =~= Diff::hiding(more, len).followed_by(d1));
            }
            j += 1;
        }
        proof {
            assert(cleared@.take(j as int) =~= cleared@);
            lemma_actions_diff_covers(actions@, len);
            assert(Diff::hiding(indices(cleared@), len).followed_by(
                actions_diff(actions@, len).followed_by(d0),
            ) =~= step_diff(actions@, indices(cleared@), len).followed_by(d0));
        }
    }

    /// Puts clicks on `shapes`, in order and each on the first candidate of its state,
    /// before the decisions already held.
    fn absorb_shapes(&mut self, ctx: &Context<T>, shapes: &Vec<ShapeId>)
        requires
            ctx.wf(),
            old(self).has_cap(ctx.cap as nat),
            old(self).wf(),
            forall|k: int| 0 <= k < shapes@.len() ==> (#[trigger] shapes@[k]).0 < ctx.n,
        ensures
            final(self).has_cap(ctx.cap as nat),
            final(self).wf(),
            final(self).diff() == shapes_diff(ctx, indices(shapes@), ctx.bits()).followed_by(
                old(self).diff(),
            ),
    {
        let ghost len = ctx.bits();
        let ghost cap = ctx.cap as nat;
        let ghost d0 = self.diff();
        let ghost ids = indices(shapes@);
        let nothing: Vec<ShapeId> = Vec::new();
        let mut k: usize = shapes.len();
        proof {
            assert(ids.skip(k as int) =~= Seq::<int>::empty());
            assert(self.diff() =~= shapes_diff(ctx, ids.skip(k as int), len).followed_by(d0));
            assert(indices(nothing@) =~= Seq::<int>::empty());
        }
        while k > 0
            invariant
                k <= shapes@.len(),
                ctx.wf(),
                self.has_cap(cap),
                self.wf(),
                cap == ctx.cap,
                len == ctx.bits(),
                len == self.set_t.bits(),
                d0.covers(len),
                ids == indices(shapes@),
                nothing@.len() == 0,
                forall|k: int| 0 <= k < shapes@.len() ==> (#[trigger] shapes@[k]).0 < ctx.n,
                self.diff() == shapes_diff(ctx, ids.skip(k as int), len).followed_by(d0),
            decreases k,
        {
            k -= 1;
            let shape = shapes[k].index();
            let ghost rest = ids.skip(k + 1);
            proof {
                assert(ids.skip(k as int) =~= seq![shape as int] + rest);
                lemma_shapes_diff_prepend(ctx, shape as int, rest, len);
                lemma_shapes_diff_covers(ctx, rest, len);
                lemma_actions_diff_covers(ctx.actions_of(shape as int), len);
                assert(indices(nothing@) =~= Seq::<int>::empty());
                let step = step_diff(ctx.actions_of(shape as int), Seq::empty(), len);
                assert(step.followed_by(shapes_diff(ctx, rest, len).followed_by(d0)) =~= step.followed_by(
                    shapes_diff(ctx, rest, len),
                ).followed_by(d0));
            }
            self.absorb_step(&ctx.actions[shape], &nothing, Ghost(cap));
        }
        proof {
            assert(ids.skip(0) =~= ids);
        }
    }

    /// Writes the decisions held over `state`.
    fn apply_to(&self, state: &mut State<T>, Ghost(cap): Ghost<nat>)
        requires
            self.has_cap(cap),
            old(state).has_cap(cap),
        ensures
            final(state).has_cap(cap),
            final(state)@ == old(state)@.patched(self.diff()),
    {
        let n = self.set_t.cap();
        let ghost len = cap * T::width();
        let ghost w = T::width() as int;
        let ghost goal = old(state)@.patched(self.diff());
        proof {
            T::lemma_width_positive();
        }
        let mut c: usize = 0;
        while c < n
            invariant
                c <= n,
                n == cap,
                self.has_cap(cap),
                state.has_cap(cap),
                old(state).has_cap(cap),
                0 < w == T::width(),
                len == cap * T::width(),
                goal == old(state)@.patched(self.diff()),
                forall|i: int|
                    0 <= i < len ==> state@.t[i] == (if i / w < c {
                        goal.t[i]
                    } else {
                        old(state)@.t[i]
                    }) && state@.v[i] == (if i / w < c {
                        goal.v[i]
                    } else {
                        old(state)@.v[i]
                    }) && state@.u[i] == (if i / w < c {
                        goal.u[i]
                    } else {
                        old(state)@.u[i]
                    }),
            decreases n - c,
        {
            let ghost before = state@;
            let st = self.set_t.get_chunk(c);
            let ut = self.unset_t.get_chunk(c);
            let sv = self.set_v.get_chunk(c);
            let uv = self.unset_v.get_chunk(c);
            state.t.or_chunk(c, st);
            state.t.and_not_chunk(c, ut);
            state.v.or_chunk(c, sv);
            state.v.and_not_chunk(c, uv);
            let decided = st.or(ut).or(sv.or(uv));
            state.u.and_not_chunk(c, decided);
            proof {
                assert forall|i: int| 0 <= i < len implies state@.t[i] == (if i / w < c + 1 {
                    goal.t[i]
                } else {
                    old(state)@.t[i]
                }) && state@.v[i] == (if i / w < c + 1 {
                    goal.v[i]
                } else {
                    old(state)@.v[i]
                }) && state@.u[i] == (if i / w < c + 1 {
                    goal.u[i]
                } else {
                    old(state)@.u[i]
                }) by {
                    lemma_index_split(i, w, cap as int);
                    assert(self.set_t@[i] == self.set_t.bit(i));
                    assert(self.unset_t@[i] == self.unset_t.bit(i));
                    assert(self.set_v@[i] == self.set_v.bit(i));
                    assert(self.unset_v@[i] == self.unset_v.bit(i));
                    assert(before.t[i] == (if i / w < c {
                        goal.t[i]
                    } else {
                        old(state)@.t[i]
                    }));
                }
            }
            c += 1;
        }
        proof {
            assert forall|i: int| 0 <= i < len implies state@.t[i] == goal.t[i] && state@.v[i]
                == goal.v[i] && state@.u[i] == goal.u[i] by {
                lemma_index_split(i, w, cap as int);
            }
            assert(state@.t =~= goal.t);
            assert(state@.v =~= goal.v);
            assert(state@.u =~= goal.u);
        }
    }
}

/// The nodes, the states that are kept rather than rebuilt, and the nodes by hash.
#[derive(Debug)]
pub struct Graph<T: Bits> {
    /// The nodes, by identity.
    pub nodes: Vec<Node>,
    /// The states that are stored whole, by the identity of their node.
    pub cache: HashMap<u32, State<T>>,
    /// The nodes by the hash of their state.
    pub hashes: HashMap<u64, Vec<NodeId>>,
}

/// The state of node `id` of `nodes`, replayed from the root: the state of its parent, then
/// the clicks that this state forces, then a click on the shape that created the node.
pub open spec fn replay_in<T: Bits>(nodes: Seq<Node>, ctx: &Context<T>, id: int) -> StateView
    decreases id,
{
    if id <= 0 || id >= nodes.len() {
        ctx.root@
    } else {
        match nodes[id].parent_edge(id) {
            Some(e) => if e.0.0 < id {
                replay_in(nodes, ctx, e.0.0 as int).forwarded(ctx, FORWARD_LIMIT as nat).click(
                    ctx.actions_of(e.1.0 as int),
                    e.1.0 as int,
                )
            } else {
                ctx.root@
            },
            None => ctx.root@,
        }
    }
}

/// The outcome `r` of rebuilding a state, with the decisions of `d` written over it.
pub open spec fn patch_result(r: Result<StateView, Error>, d: Diff) -> Result<StateView, Error> {
    match r {
        Ok(s) => Ok(s.patched(d)),
        Err(e) => Err(e),
    }
}

impl<T: Bits> Graph<T> {
    /// The state of node `id`, replayed from the root: the state of its parent, then the
    /// clicks that this state forces, then a click on the shape that created the node.
    pub open spec fn replay(&self, ctx: &Context<T>, id: int) -> StateView {
        replay_in(self.nodes@, ctx, id)
    }

    /// The state of node `id` as it is rebuilt: from the nearest ancestor whose state is
    /// stored, or from the root, forward through the recorded clicks. It fails with
    /// `IndexOutOfRange` where a node, a shape or a stored state does not fit the context,
    /// and with `GraphCycle` where a node has no older parent.
    pub open spec fn rebuilt(&self, ctx: &Context<T>, id: int) -> Result<StateView, Error>
        decreases id,
    {
        if id < 0 || id >= self.nodes@.len() || id > u32::MAX {
            Err(Error::IndexOutOfRange)
        } else if id == 0 {
            Ok(ctx.root@)
        } else if self.cache@.contains_key(id as u32) {
            if self.cache@[id as u32].has_cap(ctx.cap as nat) {
                Ok(self.cache@[id as u32]@)
            } else {
                Err(Error::IndexOutOfRange)
            }
        } else {
            match self.nodes@[id].parent_edge(id) {
                None => Err(Error::GraphCycle),
                Some(e) => if e.1.0 >= ctx.n || !self.cleared_fits(ctx, id) || !self.forced_fits(
                    ctx,
                    id,
                ) {
                    Err(Error::IndexOutOfRange)
                } else if e.0.0 < id {
                    match self.rebuilt(ctx, e.0.0 as int) {
                        Ok(s) => Ok(
                            s.through(ctx, indices(self.nodes@[id].forced@)).clicked(
                                ctx.actions_of(e.1.0 as int),
                                indices(self.nodes@[id].cleared@),
                            ),
                        ),
                        Err(x) => Err(x),
                    }
                } else {
                    Err(Error::GraphCycle)
                },
            }
        }
    }

    /// The shapes that node `id` records as found hidden are shapes of the context.
    pub open spec fn cleared_fits(&self, ctx: &Context<T>, id: int) -> bool {
        forall|k: int|
            0 <= k < self.nodes@[id].cleared@.len() ==> (#[trigger] self.nodes@[id].cleared@[k]).0
                < ctx.n
    }

    /// The shapes that node `id` records as clicked by force are shapes of the context.
    pub open spec fn forced_fits(&self, ctx: &Context<T>, id: int) -> bool {
        forall|k: int|
            0 <= k < self.nodes@[id].forced@.len() ==> (#[trigger] self.nodes@[id].forced@[k]).0
                < ctx.n
    }

    /// Every stored state is the state that replaying from the root gives.
    pub open spec fn cache_is_replay(&self, ctx: &Context<T>) -> bool {
        forall|k: u32| #[trigger]
            self.cache@.contains_key(k) ==> self.cache@[k]@ == self.replay(ctx, k as int)
    }

    /// Every node records the clicks that the state of its parent forces, and as found
    /// hidden the candidates that came before the shape whose click created it.
    pub open spec fn cleared_is_right(&self, ctx: &Context<T>) -> bool {
        forall|id: int|
            0 < id < self.nodes@.len() ==> match (#[trigger] self.nodes@[id]).parent_edge(id) {
                Some(e) => {
                    let parent = self.replay(ctx, e.0.0 as int);
                    &&& indices(self.nodes@[id].forced@) == parent.forced(ctx, FORWARD_LIMIT as nat)
                    &&& parent.forwarded(ctx, FORWARD_LIMIT as nat).cleared_before(
                        e.1.0 as int,
                        indices(self.nodes@[id].cleared@),
                    )
                },
                None => true,
            }
    }

    /// An edge found by [`first_below`] is older than the node.
    pub proof fn lemma_first_below(edges: Seq<Edge>, id: int, k: int)
        ensures
            first_below(edges, id, k) matches Some(e) ==> e.0.0 < id,
        decreases edges.len() - k,
    {
        if 0 <= k < edges.len() && !(edges[k].0.0 < id) {
            Self::lemma_first_below(edges, id, k + 1);
        }
    }

    /// A rebuilt state describes every position of the context.
    pub proof fn lemma_rebuilt_len(&self, ctx: &Context<T>, id: int)
        requires
            ctx.wf(),
        ensures
            self.rebuilt(ctx, id) matches Ok(s) ==> s.wf() && s.len() == ctx.bits(),
        decreases id,
    {
        if 0 < id < self.nodes@.len() && id <= u32::MAX && !self.cache@.contains_key(id as u32) {
            match self.nodes@[id].parent_edge(id) {
                Some(e) => {
                    if e.0.0 < id {
                        self.lemma_rebuilt_len(ctx, e.0.0 as int);
                    }
                },
                None => {},
            }
        }
    }

    /// Where every stored state and every recorded list of shapes is what replaying
    /// gives, a state that can be rebuilt is the state that replaying the clicks from the
    /// root gives.
    pub proof fn lemma_rebuilt_is_replay(&self, ctx: &Context<T>, id: int)
        requires
            ctx.wf(),
            self.cache_is_replay(ctx),
            self.cleared_is_right(ctx),
            self.rebuilt(ctx, id).is_ok(),
        ensures
            self.rebuilt(ctx, id) == Ok::<StateView, Error>(self.replay(ctx, id)),
        decreases id,
    {
        if 0 < id < self.nodes@.len() && id <= u32::MAX && !self.cache@.contains_key(id as u32) {
            match self.nodes@[id].parent_edge(id) {
                Some(e) => {
                    if e.0.0 < id {
                        self.lemma_rebuilt_is_replay(ctx, e.0.0 as int);
                        lemma_clicked_is_click(
                            self.replay(ctx, e.0.0 as int).forwarded(ctx, FORWARD_LIMIT as nat),
                            ctx.actions_of(e.1.0 as int),
                            e.1.0 as int,
                            indices(self.nodes@[id].cleared@),
                        );
                    }
                },
                None => {},
            }
        }
    }

    /// Rebuilds the state of node `node_id`.
    pub fn compute_state(&self, ctx: &Context<T>, arena: &mut Arena<T>, node_id: NodeId) -> (r:
        Result<State<T>, Error>)
        requires
            ctx.wf(),
            old(arena).has_cap(ctx.cap as nat),
        ensures
            final(arena).has_cap(ctx.cap as nat),
            match r {
                Ok(s) => s.has_cap(ctx.cap as nat) && self.rebuilt(ctx, node_id.0 as int) == Ok::<
                    StateView,
                    Error,
                >(s@),
                Err(e) => self.rebuilt(ctx, node_id.0 as int) == Err::<StateView, Error>(e),
            },
    {
        broadcast use vstd::std_specs::hash::group_hash_axioms;

        let ghost cap = ctx.cap as nat;
        let ghost len = ctx.bits();
        let ghost target = node_id.0 as int;
        proof {
            T::lemma_width_positive();
            self.lemma_rebuilt_len(ctx, target);
        }
        let bits = ctx.cap * T::size();
        arena.reset(Ghost(cap));
        let mut cur = node_id;
        proof {
            match self.rebuilt(ctx, target) {
                Ok(s) => {
                    assert(s.patched(arena.diff()) =~= s);
                },
                Err(e) => {},
            }
        }
        loop
            invariant
                ctx.wf(),
                arena.has_cap(cap),
                arena.wf(),
                arena.diff().covers(len),
                cap == ctx.cap,
                len == ctx.bits(),
                bits == len,
                target == node_id.0,
                self.rebuilt(ctx, target) == patch_result(self.rebuilt(ctx, cur.0 as int), arena.diff()),
            decreases cur.0,
        {
            let i = cur.index();
            if i >= self.nodes.len() {
                return Err(Error::IndexOutOfRange);
            }
            if i == 0 {
                let mut state = ctx.root.clone();
                arena.apply_to(&mut state, Ghost(cap));
                return Ok(state);
            }
            match self.cache.get(&cur.0) {
                Some(stored) => {
                    if stored.t.cap() != ctx.cap || stored.v.cap() != ctx.cap || stored.u.cap()
                        != ctx.cap {
                        return Err(Error::IndexOutOfRange);
                    }
                    let mut state = stored.clone();
                    arena.apply_to(&mut state, Ghost(cap));
                    return Ok(state);
                },
                None => {},
            }
            let node = &self.nodes[i];
            match node.find_parent(cur) {
                None => {
                    return Err(Error::GraphCycle);
                },
                Some(edge) => {
                    if edge.1.index() >= ctx.n || !all_below(&node.cleared, ctx.n) || !all_below(
                        &node.forced,
                        ctx.n,
                    ) {
                        return Err(Error::IndexOutOfRange);
                    }
                    proof {
                        Self::lemma_first_below(node.from@, i as int, 0);
                        self.lemma_rebuilt_len(ctx, edge.0.0 as int);
                        let step = step_diff(
                            ctx.actions_of(edge.1.0 as int),
                            indices(node.cleared@),
                            len,
                        );
                        let before = shapes_diff(ctx, indices(node.forced@), len);
                        lemma_actions_diff_covers(ctx.actions_of(edge.1.0 as int), len);
                        lemma_shapes_diff_covers(ctx, indices(node.forced@), len);
                        match self.rebuilt(ctx, edge.0.0 as int) {
                            Ok(s) => {
                                lemma_patch_compose(s, before, step);
                                lemma_patch_compose(s, before.followed_by(step), arena.diff());
                                assert(before.followed_by(step).followed_by(arena.diff())
                                    =~= before.followed_by(step.followed_by(arena.diff())));
                            },
                            Err(e) => {},
                        }
                    }
                    arena.absorb_step(&ctx.actions[edge.1.index()], &node.cleared, Ghost(cap));
                    arena.absorb_shapes(ctx, &node.forced);
                    cur = edge.0;
                },
            }
        }
    }
}

/// Whether every shape of `ids` has an index below `bound`.
pub fn all_below(ids: &Vec<ShapeId>, bound: usize) -> (r: bool)
    ensures
        r == forall|k: int| 0 <= k < ids@.len() ==> (#[trigger] ids@[k]).0 < bound,
{
    let mut k: usize = 0;
    while k < ids.len()
        invariant
            k <= ids@.len(),
            forall|j: int| 0 <= j < k ==> (#[trigger] ids@[j]).0 < bound,
        decreases ids@.len() - k,
    {
        if ids[k].index() >= bound {
            return false;
        }
        k += 1;
    }
    true
}

/// The bytes that stand for a run of chunks when it is hashed: each chunk as a 64-bit
/// number, low byte first.
pub open spec fn chunk_bytes<T: Bits>(chunks: Seq<T>) -> Seq<Seq<u8>> {
    Seq::new(chunks.len(), |i: int| spec_u64_to_le_bytes(chunks[i].word()))
}

/// The hash of two runs of chunks: what the standard hasher makes of the bytes of the
/// first run followed by those of the second.
pub open spec fn spec_partial_hash<T: Bits>(t: Seq<T>, v: Seq<T>) -> u64 {
    DefaultHasher::spec_finish(chunk_bytes(t) + chunk_bytes(v))
}

/// Chunk by chunk, the bits that either run has.
pub open spec fn union_chunks<T: Bits>(a: Seq<T>, b: Seq<T>) -> Seq<T> {
    Seq::new(a.len(), |c: int| a[c].union(b[c]))
}

/// Feeds a run of chunks to a hasher.
fn hash_chunks<T: Bits>(hasher: &mut DefaultHasher, chunks: &[T])
    ensures
        final(hasher)@ == old(hasher)@ + chunk_bytes(chunks@),
{
    let mut k: usize = 0;
    assert(hasher@ =~= old(hasher)@ + chunk_bytes(chunks@.take(0)));
    while k < chunks.len()
        invariant
            k <= chunks@.len(),
            hasher@ == old(hasher)@ + chunk_bytes(chunks@.take(k as int)),
        decreases chunks@.len() - k,
    {
        let bytes = u64_to_le_bytes(chunks[k].to_word());
        hasher.write(bytes.as_slice());
        assert(hasher@ =~= old(hasher)@ + chunk_bytes(chunks@.take(k + 1)));
        k += 1;
    }
    assert(chunks@.take(k as int) =~= chunks@);
}

/// Hashes the targeted and the visible chunks of a state.
pub fn partial_hash<T: Bits>(t: &[T], v: &[T]) -> (r: u64)
    ensures
        r == spec_partial_hash(t@, v@),
{
    let mut hasher = DefaultHasher::new();
    hash_chunks(&mut hasher, t);
    hash_chunks(&mut hasher, v);
    assert(hasher@ =~= chunk_bytes(t@) + chunk_bytes(v@));
    hasher.finish()
}

impl<T: Bits> Graph<T> {
    /// The hash under which a state is filed: that of its targeted chunks and of its
    /// visible chunks, the latter with the permanently unknown shapes counted as visible.
    pub open spec fn key(ctx: &Context<T>, state: &State<T>) -> u64 {
        spec_partial_hash(state.t.chunks@, union_chunks(state.v.chunks@, ctx.u.chunks@))
    }

    /// The nodes filed under hash `h`, oldest first.
    pub open spec fn bucket(&self, h: u64) -> Seq<NodeId> {
        if self.hashes@.contains_key(h) {
            self.hashes@[h]@
        } else {
            Seq::empty()
        }
    }

    /// The outcome of looking, from position `k` of `candidates` on, for a node whose
    /// state subsumes `state`: the first such node, or none, or the error met when a
    /// candidate before it could not be rebuilt.
    pub open spec fn scan(
        &self,
        ctx: &Context<T>,
        candidates: Seq<NodeId>,
        k: int,
        state: StateView,
    ) -> Result<Option<NodeId>, Error>
        decreases candidates.len() - k,
    {
        if k < 0 || k >= candidates.len() {
            Ok(None)
        } else {
            match self.rebuilt(ctx, candidates[k].0 as int) {
                Err(e) => Err(e),
                Ok(s) => if s.subsumes(state) {
                    Ok(Some(candidates[k]))
                } else {
                    self.scan(ctx, candidates, k + 1, state)
                },
            }
        }
    }

    /// The hash under which `state` is filed.
    pub fn state_key(ctx: &Context<T>, state: &State<T>) -> (r: u64)
        requires
            ctx.wf(),
            state.has_cap(ctx.cap as nat),
        ensures
            r == Self::key(ctx, state),
    {
        let mut visible = state.v.clone();
        let either = |a: T, b: T| -> (r: T)
            ensures
                r == a.union(b),
            { a.or(b) };
        visible.binop(&ctx.u, either);
        assert(visible.chunks@ =~= union_chunks(state.v.chunks@, ctx.u.chunks@));
        partial_hash(state.t.chunks.as_slice(), visible.chunks.as_slice())
    }

    /// Looks among the nodes filed under the hash of `state` for one whose state subsumes
    /// it, and returns the oldest.
    pub fn merge(&self, ctx: &Context<T>, arena: &mut Arena<T>, state: &State<T>) -> (r: Result<
        Option<NodeId>,
        Error,
    >)
        requires
            ctx.wf(),
            old(arena).has_cap(ctx.cap as nat),
            state.has_cap(ctx.cap as nat),
        ensures
            final(arena).has_cap(ctx.cap as nat),
            r == self.scan(ctx, self.bucket(Self::key(ctx, state)), 0, state@),
    {
        broadcast use vstd::std_specs::hash::group_hash_axioms;

        let h = Self::state_key(ctx, state);
        match self.hashes.get(&h) {
            None => Ok(None),
            Some(candidates) => {
                let ghost all = self.bucket(h);
                let mut k: usize = 0;
                while k < candidates.len()
                    invariant
                        k <= candidates@.len(),
                        candidates@ == all,
                        all == self.bucket(Self::key(ctx, state)),
                        ctx.wf(),
                        arena.has_cap(ctx.cap as nat),
                        state.has_cap(ctx.cap as nat),
                        self.scan(ctx, all, 0, state@) == self.scan(ctx, all, k as int, state@),
                    decreases candidates@.len() - k,
                {
                    let candidate = candidates[k];
                    match self.compute_state(ctx, arena, candidate) {
                        Err(e) => {
                            return Err(e);
                        },
                        Ok(computed) => {
                            if computed.can_merge(state) {
                                return Ok(Some(candidate));
                            }
                        },
                    }
                    k += 1;
                }
                Ok(None)
            },
        }
    }
}

impl<T: Bits> Graph<T> {
    /// Whether node `m` records a click on shape `s` in node `p`.
    pub open spec fn leads(&self, p: int, s: int, m: int) -> bool {
        exists|k: int|
            0 <= k < self.nodes@[m].from@.len() && (#[trigger] self.nodes@[m].from@[k]).0.0 == p
                && self.nodes@[m].from@[k].1.0 == s
    }

    /// The oldest node from `from` on that records a click on shape `s` in node `p`.
    pub open spec fn next_from(&self, p: int, s: int, from: int) -> Option<int>
        decreases self.nodes@.len() - from,
    {
        if from < 0 || from >= self.nodes@.len() {
            None
        } else if self.leads(p, s, from) {
            Some(from)
        } else {
            self.next_from(p, s, from + 1)
        }
    }

    /// The node that the clicks of `path` lead to from the root, along recorded edges;
    /// none if one of the clicks is not recorded.
    pub open spec fn reached(&self, path: Seq<ShapeId>) -> Option<int>
        decreases path.len(),
    {
        if path.len() == 0 {
            Some(0)
        } else {
            match self.reached(path.drop_last()) {
                Some(p) => self.next_from(p, path.last().0 as int, 0),
                None => None,
            }
        }
    }

    /// The node that a click on `shape` in node `node` leads to: the oldest node that
    /// records that click, if one does.
    pub fn successor(&self, node: NodeId, shape: ShapeId) -> (r: Option<NodeId>)
        requires
            self.nodes@.len() <= u32::MAX,
        ensures
            match r {
                Some(m) => self.next_from(node.0 as int, shape.0 as int, 0) == Some(m.0 as int),
                None => self.next_from(node.0 as int, shape.0 as int, 0) is None,
            },
    {
        let mut m: usize = 0;
        while m < self.nodes.len()
            invariant
                m <= self.nodes@.len(),
                self.nodes@.len() <= u32::MAX,
                self.next_from(node.0 as int, shape.0 as int, 0) == self.next_from(
                    node.0 as int,
                    shape.0 as int,
                    m as int,
                ),
            decreases self.nodes@.len() - m,
        {
            let edges = self.nodes[m].from.as_slice();
            let mut k: usize = 0;
            while k < edges.len()
                invariant
                    k <= edges@.len(),
                    m < self.nodes@.len(),
                    self.nodes@.len() <= u32::MAX,
                    self.next_from(node.0 as int, shape.0 as int, 0) == self.next_from(
                        node.0 as int,
                        shape.0 as int,
                        m as int,
                    ),
                    edges@ == self.nodes@[m as int].from@,
                    forall|j: int|
                        0 <= j < k ==> !((#[trigger] edges@[j]).0.0 == node.0 && edges@[j].1.0 == shape.0),
                decreases edges@.len() - k,
            {
                let edge = edges[k];
                if edge.0.index() == node.index() && edge.1.index() == shape.index() {
                    assert(self.leads(node.0 as int, shape.0 as int, m as int));
                    return Some(NodeId::new(m));
                }
                k += 1;
            }
            assert(!self.leads(node.0 as int, shape.0 as int, m as int));
            m += 1;
        }
        None
    }

    /// The node that the clicks of `path` lead to from the root, along recorded edges;
    /// none if one of the clicks is not recorded.
    pub fn walk(&self, path: &[ShapeId]) -> (r: Option<NodeId>)
        requires
            self.nodes@.len() <= u32::MAX,
        ensures
            match r {
                Some(m) => self.reached(path@) == Some(m.0 as int),
                None => self.reached(path@) is None,
            },
    {
        let mut node = NodeId::new(0);
        let mut k: usize = 0;
        assert(path@.take(0) =~= Seq::<ShapeId>::empty());
        while k < path.len()
            invariant
                k <= path@.len(),
                self.nodes@.len() <= u32::MAX,
                self.reached(path@.take(k as int)) == Some(node.0 as int),
            decreases path@.len() - k,
        {
            assert(path@.take(k + 1).drop_last() =~= path@.take(k as int));
            match self.successor(node, path[k]) {
                Some(next) => {
                    node = next;
                },
                None => {
                    proof {
                        self.lemma_reached_stops(path@, k + 1);
                    }
                    return None;
                },
            }
            k += 1;
        }
        assert(path@.take(k as int) =~= path@);
        Some(node)
    }

    /// Where the first `k` clicks of a path lead nowhere, the whole path leads nowhere.
    pub proof fn lemma_reached_stops(&self, path: Seq<ShapeId>, k: int)
        requires
            0 <= k <= path.len(),
            self.reached(path.take(k)) is None,
        ensures
            self.reached(path) is None,
        decreases path.len() - k,
    {
        if k < path.len() {
            assert(path.take(k + 1).drop_last() =~= path.take(k));
            self.lemma_reached_stops(path, k + 1);
        } else {
            assert(path.take(k) =~= path);
        }
    }
}

} // verus!
