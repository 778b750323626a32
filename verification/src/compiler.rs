//! The tri-state of a scene and what a click does to it.
//!
//! A [`State`] holds, for every compiled shape, whether it is targeted (sits on the focus
//! point), whether it is visible, and whether those two facts are still unknown. A
//! [`Context`] holds what clicking each shape does, as lists of [`Action`]s.

use crate::action::{
    actions_diff, actions_within, lemma_actions_diff_covers, lemma_actions_quiet, step_diff, Action, Diff,
    Tri,
};
use crate::bits::Bits;
use crate::bitvec::{in_mask, lemma_index_join, BitVec};
use crate::error::Error;
use crate::ids::{indices, ShapeId};
use vstd::prelude::*;

verus! {

/// The three attributes of every shape, as plain booleans.
#[verifier::ext_equal]
pub struct StateView {
    /// Targeted.
    pub t: Seq<bool>,
    /// Visible.
    pub v: Seq<bool>,
    /// Unknown: `t` and `v` are not to be trusted for this shape.
    pub u: Seq<bool>,
}

impl StateView {
    /// Number of shapes described.
    pub open spec fn len(self) -> nat {
        self.t.len()
    }

    /// The three attributes describe the same shapes.
    pub open spec fn wf(self) -> bool {
        self.v.len() == self.t.len() && self.u.len() == self.t.len()
    }

    /// The state after the decisions of `d` were written over this one. A shape for which
    /// anything was decided is no longer unknown.
    pub open spec fn patched(self, d: Diff) -> StateView {
        StateView {
            t: Seq::new(self.t.len(), |i: int| d.t[i].over(self.t[i])),
            v: Seq::new(self.v.len(), |i: int| d.v[i].over(self.v[i])),
            u: Seq::new(self.u.len(), |i: int| self.u[i] && d.v[i] == Tri::U && d.t[i] == Tri::U),
        }
    }

    /// Nothing is marked at a position at or past `n`: the state is about the first `n`
    /// shapes only.
    pub open spec fn clear_past(self, n: nat) -> bool {
        forall|i: int| n <= i < self.len() ==> !#[trigger] self.t[i] && !self.v[i] && !self.u[i]
    }

    /// Shape `i` is marked visible and targeted.
    pub open spec fn hit(self, i: int) -> bool {
        self.t[i] && self.v[i]
    }

    /// Shape `i` may be what a click on the focus point triggers: it is a hit, and every
    /// hit before it is unknown.
    pub open spec fn leading(self, i: int) -> bool {
        &&& 0 <= i < self.len()
        &&& self.hit(i)
        &&& forall|j: int| 0 <= j < i && self.hit(j) ==> self.u[j]
    }

    /// Whether this state stands for `other` too: wherever this state is decided, `other`
    /// is decided and says the same.
    pub open spec fn subsumes(self, other: StateView) -> bool {
        forall|i: int|
            0 <= i < self.len() && !self.u[i] ==> self.t[i] == other.t[i] && self.v[i] == other.v[i]
                && !other.u[i]
    }

    /// Whether the fully decided attributes `t`, `v` are one of the situations that this
    /// state allows: they agree with it on every shape that it has decided.
    pub open spec fn allows(self, t: Seq<bool>, v: Seq<bool>) -> bool {
        &&& t.len() == self.len()
        &&& v.len() == self.len()
        &&& forall|i: int| 0 <= i < self.len() && !self.u[i] ==> self.t[i] == t[i] && self.v[i] == v[i]
    }

    /// What a click on shape `shape` reveals: the candidates before it, which would have
    /// taken the click had they been there, are hidden.
    pub open spec fn found_hidden(self, shape: int) -> Diff {
        Diff {
            t: Seq::new(self.len(), |i: int| Tri::U),
            v: Seq::new(
                self.len(),
                |i: int|
                    if i < shape && self.hit(i) {
                        Tri::F
                    } else {
                        Tri::U
                    },
            ),
        }
    }

    /// The state after a click on shape `shape`, whose actions are `actions`.
    pub open spec fn click<T: Bits>(self, actions: Seq<Action<T>>, shape: int) -> StateView {
        self.patched(self.found_hidden(shape).followed_by(actions_diff(actions, self.len())))
    }

    /// Whether `cleared` lists the candidates that come before shape `shape`.
    pub open spec fn cleared_before(self, shape: int, cleared: Seq<int>) -> bool {
        forall|i: int| 0 <= i < self.len() ==> (cleared.contains(i) <==> i < shape && self.hit(i))
    }

    /// The state after a click on a shape whose actions are `actions`, once the shapes in
    /// `cleared` were found to be hidden.
    pub open spec fn clicked<T: Bits>(self, actions: Seq<Action<T>>, cleared: Seq<int>) -> StateView {
        self.patched(step_diff(actions, cleared, self.len()))
    }

    /// Shape `c` is the only one that a click on the focus point may trigger.
    pub open spec fn is_sole(self, c: int) -> bool {
        self.leading(c) && forall|d: int| self.leading(d) ==> d == c
    }

    /// The only shape that a click on the focus point may trigger, if there is exactly one.
    #[verifier::opaque]
    pub open spec fn sole(self) -> Option<int> {
        if exists|c: int| self.is_sole(c) {
            Some(choose|c: int| self.is_sole(c))
        } else {
            None
        }
    }

    /// The clicks that are forced on this state, at most `fuel` of them: as long as a
    /// state leaves no choice, its only candidate is clicked.
    #[verifier::opaque]
    pub open spec fn forced<T: Bits>(self, ctx: &Context<T>, fuel: nat) -> Seq<int>
        decreases fuel,
    {
        if fuel == 0 {
            Seq::empty()
        } else {
            let before = self.forced(ctx, (fuel - 1) as nat);
            if before.len() == fuel - 1 {
                match self.through(ctx, before).sole() {
                    Some(c) => before.push(c),
                    None => before,
                }
            } else {
                before
            }
        }
    }

    /// The state after clicks on `shapes` in order, each of them the first candidate of
    /// its state.
    pub open spec fn through<T: Bits>(self, ctx: &Context<T>, shapes: Seq<int>) -> StateView {
        self.patched(shapes_diff(ctx, shapes, self.len()))
    }

    /// The state after the clicks that are forced on this state, at most `fuel` of them.
    pub open spec fn forwarded<T: Bits>(self, ctx: &Context<T>, fuel: nat) -> StateView {
        self.through(ctx, self.forced(ctx, fuel))
    }
}

/// What clicks on `shapes` in order decide, when each of them is the first candidate of
/// its state.
pub open spec fn shapes_diff<T: Bits>(ctx: &Context<T>, shapes: Seq<int>, len: nat) -> Diff
    decreases shapes.len(),
{
    if shapes.len() == 0 {
        Diff::none(len)
    } else {
        shapes_diff(ctx, shapes.drop_last(), len).followed_by(
            step_diff(ctx.actions_of(shapes.last()), Seq::empty(), len),
        )
    }
}

/// Decisions that make nothing true past the first `n` shapes keep a state about those
/// shapes only.
pub proof fn lemma_patch_keeps_clear(s: StateView, d: Diff, n: nat)
    requires
        s.wf(),
        d.covers(s.len()),
        s.clear_past(n),
        d.quiet_past(n),
    ensures
        s.patched(d).clear_past(n),
{
    assert forall|i: int| n <= i < s.len() implies !#[trigger] s.patched(d).t[i] && !s.patched(d).v[i]
        && !s.patched(d).u[i] by {
        assert(!s.t[i]);
        assert(d.t[i] != Tri::T && d.v[i] != Tri::T);
    }
}

/// In a state that is about the first `n` shapes only, every candidate is one of them.
pub proof fn lemma_leading_is_shape(s: StateView, n: nat, i: int)
    requires
        s.clear_past(n),
        s.leading(i),
    ensures
        0 <= i < n,
{
    if i >= n {
        assert(!s.t[i]);
    }
}

/// A click in a well-formed context decides nothing true past the last shape.
pub proof fn lemma_step_quiet<T: Bits>(ctx: &Context<T>, shape: int, cleared: Seq<int>, len: nat)
    requires
        ctx.wf(),
    ensures
        step_diff(ctx.actions_of(shape), cleared, len).quiet_past(ctx.n as nat),
        step_diff(ctx.actions_of(shape), cleared, len).covers(len),
{
    let actions = ctx.actions_of(shape);
    if 0 <= shape < ctx.n {
        assert forall|k: int| 0 <= k < actions.len() implies (#[trigger] actions[k]).within(
            ctx.n as nat,
        ) by {
            assert(ctx.actions@[shape]@[k].within(ctx.n as nat));
        }
    }
    lemma_actions_quiet(actions, ctx.n as nat, len);
    lemma_actions_diff_covers(actions, len);
}

/// Clicks in a well-formed context decide nothing true past the last shape.
pub proof fn lemma_shapes_quiet<T: Bits>(ctx: &Context<T>, shapes: Seq<int>, len: nat)
    requires
        ctx.wf(),
    ensures
        shapes_diff(ctx, shapes, len).quiet_past(ctx.n as nat),
        shapes_diff(ctx, shapes, len).covers(len),
    decreases shapes.len(),
{
    if shapes.len() > 0 {
        lemma_shapes_quiet(ctx, shapes.drop_last(), len);
        lemma_step_quiet(ctx, shapes.last(), Seq::empty(), len);
    }
}

/// A click keeps a state about the shapes only.
pub proof fn lemma_click_keeps_clear<T: Bits>(s: StateView, ctx: &Context<T>, shape: int)
    requires
        ctx.wf(),
        s.wf(),
        s.clear_past(ctx.n as nat),
    ensures
        s.click(ctx.actions_of(shape), shape).clear_past(ctx.n as nat),
{
    let n = ctx.n as nat;
    let actions = ctx.actions_of(shape);
    lemma_step_quiet(ctx, shape, Seq::empty(), s.len());
    lemma_actions_diff_covers(actions, s.len());
    let d = s.found_hidden(shape).followed_by(actions_diff(actions, s.len()));
    let q = step_diff(actions, Seq::empty(), s.len());
    assert forall|i: int| n <= i < d.t.len() implies #[trigger] d.t[i] != Tri::T by {
        assert(q.t[i] != Tri::T);
    }
    assert forall|i: int| n <= i < d.v.len() implies #[trigger] d.v[i] != Tri::T by {
        assert(q.v[i] != Tri::T);
    }
    lemma_patch_keeps_clear(s, d, n);
}

/// The forced clicks keep a state about the shapes only.
pub proof fn lemma_through_keeps_clear<T: Bits>(s: StateView, ctx: &Context<T>, shapes: Seq<int>)
    requires
        ctx.wf(),
        s.wf(),
        s.clear_past(ctx.n as nat),
    ensures
        s.through(ctx, shapes).clear_past(ctx.n as nat),
        s.through(ctx, shapes).wf(),
        s.through(ctx, shapes).len() == s.len(),
{
    lemma_shapes_quiet(ctx, shapes, s.len());
    lemma_patch_keeps_clear(s, shapes_diff(ctx, shapes, s.len()), ctx.n as nat);
}

/// The diff of a list of clicks describes every shape.
pub proof fn lemma_shapes_diff_covers<T: Bits>(ctx: &Context<T>, shapes: Seq<int>, len: nat)
    ensures
        shapes_diff(ctx, shapes, len).covers(len),
    decreases shapes.len(),
{
    if shapes.len() > 0 {
        lemma_shapes_diff_covers(ctx, shapes.drop_last(), len);
    }
}

/// Once the forced clicks stop short of the fuel, more fuel adds none.
pub proof fn lemma_forced_stops<T: Bits>(s: StateView, ctx: &Context<T>, k: nat, fuel: nat)
    requires
        k <= fuel,
        s.forced(ctx, k).len() < k || (s.forced(ctx, k).len() == k && s.through(
            ctx,
            s.forced(ctx, k),
        ).sole() is None),
    ensures
        s.forced(ctx, fuel) == s.forced(ctx, k),
    decreases fuel - k,
{
    reveal_with_fuel(StateView::forced, 2);
    if k < fuel {
        lemma_forced_len(s, ctx, k);
        assert(s.forced(ctx, k + 1) == s.forced(ctx, k));
        lemma_forced_stops(s, ctx, k + 1, fuel);
    }
}

/// There are no more forced clicks than fuel.
pub proof fn lemma_forced_len<T: Bits>(s: StateView, ctx: &Context<T>, fuel: nat)
    ensures
        s.forced(ctx, fuel).len() <= fuel,
    decreases fuel,
{
    reveal_with_fuel(StateView::forced, 2);
    if fuel > 0 {
        lemma_forced_len(s, ctx, (fuel - 1) as nat);
    }
}

/// A list of the leading shapes that holds one shape names the only candidate; any other
/// list says that there is none.
pub proof fn lemma_sole(s: StateView, ids: Seq<ShapeId>)
    requires
        lists_leading(s, ids, s.len() as int),
    ensures
        ids.len() == 1 ==> s.sole() == Some(ids[0].0 as int),
        ids.len() != 1 ==> s.sole() is None,
{
    reveal(lists_leading);
    reveal(StateView::sole);
    if ids.len() == 1 {
        let c = ids[0].0 as int;
        assert forall|d: int| s.leading(d) implies d == c by {
            assert(indices(ids).contains(d));
            let j = choose|j: int| 0 <= j < indices(ids).len() && indices(ids)[j] == d;
            assert(ids[j].0 == d);
        }
        assert(s.is_sole(c));
        let chosen = choose|x: int| s.is_sole(x);
        assert(s.is_sole(chosen));
    } else if ids.len() >= 2 {
        assert(s.leading(ids[0].0 as int));
        assert(s.leading(ids[1].0 as int));
        assert(ids[0].0 < ids[1].0);
        if exists|c: int| s.is_sole(c) {
            let c = choose|c: int| s.is_sole(c);
            assert(ids[0].0 == c && ids[1].0 == c);
        }
    } else {
        if exists|c: int| s.is_sole(c) {
            let c = choose|c: int| s.is_sole(c);
            assert(s.leading(c));
            assert(indices(ids).contains(c));
        }
    }
}

/// Whether `ids` lists, in increasing order, exactly the leading shapes of `s` below `upto`.
#[verifier::opaque]
pub open spec fn lists_leading(s: StateView, ids: Seq<ShapeId>, upto: int) -> bool {
    &&& forall|k: int| 0 <= k < ids.len() ==> s.leading(#[trigger] ids[k].0 as int) && ids[k].0 < upto
    &&& forall|j: int, k: int| 0 <= j < k < ids.len() ==> ids[j].0 < ids[k].0
    &&& forall|i: int| 0 <= i < upto && s.leading(i) ==> indices(ids).contains(i)
}

/// Clearing the candidates before a shape and applying its actions is a click on it.
pub proof fn lemma_clicked_is_click<T: Bits>(
    s: StateView,
    actions: Seq<Action<T>>,
    shape: int,
    cleared: Seq<int>,
)
    requires
        s.cleared_before(shape, cleared),
    ensures
        s.clicked(actions, cleared) == s.click(actions, shape),
{
    assert(Diff::hiding(cleared, s.len()) =~= s.found_hidden(shape));
}

/// Every state subsumes itself.
pub proof fn lemma_subsumes_itself(s: StateView)
    ensures
        s.subsumes(s),
{
}

/// The shapes listed before position `k` of a list of the leading shapes are the
/// candidates that come before the shape at position `k`.
pub proof fn lemma_leading_prefix(s: StateView, ids: Seq<ShapeId>, k: int)
    requires
        s.wf(),
        lists_leading(s, ids, s.len() as int),
        0 <= k < ids.len(),
    ensures
        s.cleared_before(ids[k].0 as int, indices(ids.take(k))),
{
    reveal(lists_leading);
    let shape = ids[k].0 as int;
    let cleared = indices(ids.take(k));
    assert(s.leading(shape));
    assert forall|i: int| 0 <= i < s.len() implies (cleared.contains(i) <==> i < shape && s.hit(i)) by {
        if cleared.contains(i) {
            let j = choose|j: int| 0 <= j < cleared.len() && cleared[j] == i;
            assert(ids[j].0 == i);
            assert(s.leading(ids[j].0 as int));
        }
        if i < shape && s.hit(i) {
            assert(s.leading(i));
            assert(indices(ids).contains(i));
            let j = choose|j: int| 0 <= j < indices(ids).len() && indices(ids)[j] == i;
            assert(ids[j].0 == i);
            if j >= k {
                if j > k {
                    assert(ids[k].0 < ids[j].0);
                }
            }
            assert(j < k);
            assert(cleared[j] == i);
        }
    }
}

/// Writing `d` and then `e` is writing `d.followed_by(e)`.
pub proof fn lemma_patch_compose(s: StateView, d: Diff, e: Diff)
    requires
        s.wf(),
        d.covers(s.len()),
        e.covers(s.len()),
    ensures
        s.patched(d).patched(e) == s.patched(d.followed_by(e)),
{
    assert(s.patched(d).patched(e) =~= s.patched(d.followed_by(e)));
}

/// Applying the same decisions twice to a state gives what applying them once gives.
pub proof fn lemma_patch_idempotent(s: StateView, d: Diff)
    requires
        s.wf(),
        d.covers(s.len()),
    ensures
        s.patched(d).patched(d) == s.patched(d),
{
    assert(s.patched(d).patched(d) =~= s.patched(d));
}

/// After an action the unknown shapes are those that were unknown and that none of its
/// four masks touches: a shape for which the action decides anything is known from then
/// on, and no shape becomes unknown.
pub proof fn lemma_action_settles<T: Bits>(s: StateView, a: Action<T>)
    requires
        s.wf(),
    ensures
        forall|i: int|
            0 <= i < s.len() ==> #[trigger] s.patched(a.diff(s.len())).u[i] == (s.u[i] && !in_mask(
                a.set_t,
                a.chunk as int,
                i,
            ) && !in_mask(a.unset_t, a.chunk as int, i) && !in_mask(a.set_v, a.chunk as int, i)
                && !in_mask(a.unset_v, a.chunk as int, i)),
{
}

/// Decisions never make a shape unknown: the shapes that are unknown after them were
/// unknown before.
pub proof fn lemma_patch_settles(s: StateView, d: Diff)
    requires
        s.wf(),
        d.covers(s.len()),
    ensures
        forall|i: int| 0 <= i < s.len() && #[trigger] s.patched(d).u[i] ==> s.u[i],
        forall|i: int|
            0 <= i < s.len() && (d.t[i] != Tri::U || d.v[i] != Tri::U) ==> !#[trigger] s.patched(d).u[i],
{
}

/// Applying the same action twice to a state gives what applying it once gives.
pub proof fn lemma_action_idempotent<T: Bits>(s: StateView, a: Action<T>)
    requires
        s.wf(),
    ensures
        s.patched(a.diff(s.len())).patched(a.diff(s.len())) == s.patched(a.diff(s.len())),
{
    lemma_patch_idempotent(s, a.diff(s.len()));
}

/// Clicking the same shape twice in a row, with the same shapes found hidden, gives what
/// clicking it once gives.
pub proof fn lemma_click_idempotent<T: Bits>(s: StateView, actions: Seq<Action<T>>, cleared: Seq<int>)
    requires
        s.wf(),
    ensures
        s.clicked(actions, cleared).clicked(actions, cleared) == s.clicked(actions, cleared),
{
    lemma_actions_diff_covers(actions, s.len());
    lemma_patch_idempotent(s, step_diff(actions, cleared, s.len()));
}

/// A state that subsumes another allows every situation that the other allows.
pub proof fn lemma_merge_sound(a: StateView, b: StateView, t: Seq<bool>, v: Seq<bool>)
    requires
        a.wf(),
        b.wf(),
        a.len() == b.len(),
        a.subsumes(b),
        b.allows(t, v),
    ensures
        a.allows(t, v),
{
}

/// A state that does not subsume another misses one of the situations that the other
/// allows.
pub proof fn lemma_merge_exact(a: StateView, b: StateView) -> (c: (Seq<bool>, Seq<bool>))
    requires
        a.wf(),
        b.wf(),
        a.len() == b.len(),
        !a.subsumes(b),
    ensures
        b.allows(c.0, c.1),
        !a.allows(c.0, c.1),
{
    let i = choose|i: int|
        0 <= i < a.len() && !a.u[i] && !(a.t[i] == b.t[i] && a.v[i] == b.v[i] && !b.u[i]);
    let c = if b.u[i] {
        (b.t.update(i, !a.t[i]), b.v)
    } else {
        (b.t, b.v)
    };
    assert(!(a.t[i] == c.0[i] && a.v[i] == c.1[i]));
    c
}

/// Targeted, visible and unknown, one packed vector each.
#[derive(Debug)]
pub struct State<T: Bits> {
    /// targeted
    pub t: BitVec<T>,
    /// visible
    pub v: BitVec<T>,
    /// unknown (overrides targeted and visible)
    pub u: BitVec<T>,
}

impl<T: Bits> View for State<T> {
    type V = StateView;

    open spec fn view(&self) -> StateView {
        StateView { t: self.t@, v: self.v@, u: self.u@ }
    }
}

impl<T: Bits> State<T> {
    /// The three vectors have `cap` chunks each.
    pub open spec fn has_cap(&self, cap: nat) -> bool {
        self.t.chunks@.len() == cap && self.v.chunks@.len() == cap && self.u.chunks@.len() == cap
    }

    /// The state of `cap` chunks of shapes in which nothing is targeted, visible or unknown.
    pub fn new(cap: usize) -> (r: Self)
        ensures
            r.has_cap(cap as nat),
            r@.t == Seq::new(cap as nat * T::width(), |i: int| false),
            r@.v == r@.t,
            r@.u == r@.t,
    {
        State { t: BitVec::new(cap), v: BitVec::new(cap), u: BitVec::new(cap) }
    }

    /// Applies one action: its set masks are or-ed in, its unset masks are cleared, and
    /// the shapes that any of its masks touches are no longer unknown.
    pub fn apply_action(&mut self, action: &Action<T>)
        requires
            old(self).has_cap(old(self).t.chunks@.len()),
            action.chunk < old(self).t.chunks@.len(),
        ensures
            final(self).has_cap(old(self).t.chunks@.len()),
            final(self)@ == old(self)@.patched(action.diff(old(self)@.len())),
    {
        let i = action.chunk;
        self.t.or_chunk(i, action.set_t);
        self.t.and_not_chunk(i, action.unset_t);
        self.v.or_chunk(i, action.set_v);
        self.v.and_not_chunk(i, action.unset_v);
        let decided = action.set_t.or(action.unset_t).or(action.set_v.or(action.unset_v));
        self.u.and_not_chunk(i, decided);
        proof {
            T::lemma_width_positive();
            let w = T::width() as int;
            let goal = old(self)@.patched(action.diff(old(self)@.len()));
            assert forall|p: int| 0 <= p < self.u.bits() implies self@.u[p] == goal.u[p] by {
                vstd::arithmetic::div_mod::lemma_mod_bound(p, w);
            }
            assert forall|p: int| 0 <= p < self.t.bits() implies self@.t[p] == goal.t[p]
                && self@.v[p] == goal.v[p] by {
                vstd::arithmetic::div_mod::lemma_mod_bound(p, w);
            }
            assert(self@.t =~= goal.t);
            assert(self@.v =~= goal.v);
            assert(self@.u =~= goal.u);
        }
    }

    /// Applies a list of actions in order.
    pub fn apply_all(&mut self, actions: &Vec<Action<T>>)
        requires
            old(self).has_cap(old(self).t.chunks@.len()),
            forall|k: int|
                0 <= k < actions@.len() ==> (#[trigger] actions@[k]).chunk < old(self).t.chunks@.len(),
        ensures
            final(self).has_cap(old(self).t.chunks@.len()),
            final(self)@ == old(self)@.patched(actions_diff(actions@, old(self)@.len())),
    {
        let ghost len = self@.len();
        let ghost cap = self.t.chunks@.len();
        let mut k: usize = 0;
        assert(self@ =~= old(self)@.patched(actions_diff(actions@.take(0), len)));
        while k < actions.len()
            invariant
                k <= actions@.len(),
                self.has_cap(cap),
                cap == old(self).t.chunks@.len(),
                old(self)@.wf(),
                len == old(self)@.len(),
                forall|k: int| 0 <= k < actions@.len() ==> (#[trigger] actions@[k]).chunk < cap,
                self@ == old(self)@.patched(actions_diff(actions@.take(k as int), len)),
            decreases actions@.len() - k,
        {
            let ghost done = actions_diff(actions@.take(k as int), len);
            let ghost a = actions@[k as int];
            proof {
                lemma_actions_diff_covers(actions@.take(k as int), len);
            }
            self.apply_action(&actions[k]);
            proof {
                assert(actions@.take(k + 1).drop_last() =~= actions@.take(k as int));
                assert(actions_diff(actions@.take(k + 1), len) == done.followed_by(a.diff(len)));
                lemma_patch_compose(old(self)@, done, a.diff(len));
            }
            k += 1;
        }
        assert(actions@.take(k as int) =~= actions@);
    }

    /// Applies a click on shape `src`: the shapes in `prevs` are first marked hidden and
    /// known, then the actions of `src` are applied in order.
    pub fn apply(&mut self, ctx: &Context<T>, src: ShapeId, prevs: &[ShapeId])
        requires
            ctx.wf(),
            old(self).has_cap(ctx.cap as nat),
            src.0 < ctx.n,
            forall|k: int| 0 <= k < prevs@.len() ==> prevs@[k].0 < ctx.n,
        ensures
            final(self).has_cap(ctx.cap as nat),
            final(self)@ == old(self)@.clicked(ctx.actions@[src.0 as int]@, indices(prevs@)),
            old(self)@.clear_past(ctx.n as nat) ==> final(self)@.clear_past(ctx.n as nat),
    {
        proof {
            lemma_step_quiet(ctx, src.0 as int, indices(prevs@), old(self)@.len());
            if old(self)@.clear_past(ctx.n as nat) {
                lemma_patch_keeps_clear(
                    old(self)@,
                    step_diff(ctx.actions_of(src.0 as int), indices(prevs@), old(self)@.len()),
                    ctx.n as nat,
                );
            }
        }
        let ghost len = self@.len();
        let mut k: usize = 0;
        while k < prevs.len()
            invariant
                k <= prevs@.len(),
                self.has_cap(ctx.cap as nat),
                len == ctx.bits(),
                ctx.n <= ctx.bits(),
                forall|k: int| 0 <= k < prevs@.len() ==> prevs@[k].0 < ctx.n,
                self@ == old(self)@.patched(Diff::hiding(indices(prevs@.take(k as int)), len)),
            decreases prevs@.len() - k,
        {
            let ghost before = self@;
            let p = prevs[k].index();
            self.v.unset(p);
            self.u.unset(p);
            proof {
                let seen = indices(prevs@.take(k as int));
                let more = indices(prevs@.take(k + 1));
                assert(more =~= seen.push(p as int));
                assert forall|i: int| more.contains(i) == (seen.contains(i) || i == p) by {
                    if seen.contains(i) {
                        let j = choose|j: int| 0 <= j < seen.len() && seen[j] == i;
                        assert(more[j] == i);
                    }
                    assert(more[k as int] == p);
                }
                assert(self@ =~= old(self)@.patched(Diff::hiding(more, len)));
            }
            k += 1;
        }
        assert(prevs@.take(k as int) =~= prevs@);
        let ghost hidden = Diff::hiding(indices(prevs@), len);
        let actions = &ctx.actions[src.index()];
        let mut k: usize = 0;
        while k < actions.len()
            invariant
                k <= actions@.len(),
                ctx.wf(),
                src.0 < ctx.n,
                actions@ == ctx.actions@[src.0 as int]@,
                self.has_cap(ctx.cap as nat),
                old(self)@.wf(),
                len == old(self)@.len(),
                hidden == Diff::hiding(indices(prevs@), len),
                self@ == old(self)@.patched(
                    hidden.followed_by(actions_diff(actions@.take(k as int), len)),
                ),
            decreases actions@.len() - k,
        {
            let ghost done = actions_diff(actions@.take(k as int), len);
            let ghost a = actions@[k as int];
            proof {
                lemma_actions_diff_covers(actions@.take(k as int), len);
                assert(ctx.actions@[src.0 as int]@[k as int].chunk < ctx.cap);
            }
            self.apply_action(&actions[k]);
            proof {
                assert(actions@.take(k + 1).drop_last() =~= actions@.take(k as int));
                assert(actions_diff(actions@.take(k + 1), len) == done.followed_by(a.diff(len)));
                lemma_patch_compose(old(self)@, hidden.followed_by(done), a.diff(len));
                assert(hidden.followed_by(done).followed_by(a.diff(len)) =~= hidden.followed_by(
                    done.followed_by(a.diff(len)),
                ));
            }
            k += 1;
        }
        assert(actions@.take(k as int) =~= actions@);
    }
}

impl<T: Bits> State<T> {
    /// Lists in `firsts` the shapes that a click on the focus point may trigger, lowest
    /// index first: every shape that is marked visible and targeted, up to and including
    /// the first of them that is not unknown.
    pub fn firsts(&self, firsts: &mut Vec<ShapeId>)
        requires
            self.has_cap(self.t.chunks@.len()),
            self.t.bits() <= u32::MAX,
        ensures
            lists_leading(self@, final(firsts)@, self@.len() as int),
    {
        proof {
            reveal(lists_leading);
        }
        firsts.clear();
        let cap = self.t.chunks.len();
        let w = T::size();
        let zero = T::zero();
        proof {
            T::lemma_width_positive();
        }
        let ghost s = self@;
        let mut c: usize = 0;
        while c < cap
            invariant
                c <= cap,
                cap == self.t.chunks@.len(),
                self.has_cap(cap as nat),
                self.t.bits() <= u32::MAX,
                w == T::width(),
                0 < w,
                s == self@,
                forall|n: int| 0 <= n < T::width() ==> !#[trigger] zero.bit(n),
                s.wf(),
                s.len() == cap * w,
                lists_leading(s, firsts@, c * w),
                forall|j: int| 0 <= j < c * w && s.hit(j) ==> s.u[j],
            decreases cap - c,
        {
            proof {
                reveal(lists_leading);
            }
            let u = self.u.get_chunk(c);
            let both = self.t.get_chunk(c).and(self.v.get_chunk(c));
            let mut tv = both;
            let mut offset: usize = 0;
            let mut scanning = true;
            proof {
                lemma_index_join(c as int, w - 1, w as int, cap as int);
                assert forall|b: int| 0 <= b < w implies both.bit(b) == s.hit(c * w + b) by {
                    lemma_index_join(c as int, b, w as int, cap as int);
                    assert(s.t[c * w + b] == self.t.bit(c * w + b));
                    assert(s.v[c * w + b] == self.v.bit(c * w + b));
                }
            }
            while scanning
                invariant
                    c < cap,
                    cap == self.t.chunks@.len(),
                    self.has_cap(cap as nat),
                    self.t.bits() <= u32::MAX,
                    w == T::width(),
                    0 < w,
                    s == self@,
                    s.wf(),
                    s.len() == cap * w,
                    u == self.u.chunks@[c as int],
                    0 <= c * w,
                    c * w + w <= cap * w,
                    forall|n: int| 0 <= n < T::width() ==> !#[trigger] zero.bit(n),
                    forall|b: int| 0 <= b < w ==> both.bit(b) == s.hit(c * w + b),
                    offset <= w,
                    scanning ==> offset < w,
                    scanning ==> forall|k: int|
                        0 <= k < w ==> #[trigger] tv.bit(k) == (offset + k < w && both.bit(offset + k)),
                    scanning ==> lists_leading(s, firsts@, c * w + offset),
                    scanning ==> forall|j: int| 0 <= j < c * w + offset && s.hit(j) ==> s.u[j],
                    !scanning ==> lists_leading(s, firsts@, c * w + w),
                    !scanning ==> forall|j: int| 0 <= j < c * w + w && s.hit(j) ==> s.u[j],
                decreases
                        (w - offset) + (if scanning {
                            1int
                        } else {
                            0int
                        }),
            {
                proof {
                    reveal(lists_leading);
                }
                if tv.same(zero) {
                    proof {
                        assert forall|j: int| c * w + offset <= j < c * w + w implies !s.hit(j) by {
                            let k = j - (c * w + offset);
                            assert(!tv.bit(k));
                            assert(both.bit(offset + k) == s.hit(c * w + (offset + k)));
                        }
                    }
                    scanning = false;
                } else {
                    let o = tv.trailing_zeros();
                    proof {
                        if o == w {
                            T::lemma_bits_determine(tv, zero);
                        }
                        assert(tv.bit(o as int));
                    }
                    let ghost start = c * w + offset;
                    offset = offset + o;
                    let p = c * w + offset;
                    proof {
                        assert(both.bit(offset as int));
                        assert(s.hit(p as int));
                        assert forall|j: int| start <= j < p implies !s.hit(j) by {
                            let k = j - start;
                            assert(!tv.bit(k));
                            assert(both.bit(j - c * w) == s.hit(c * w + (j - c * w)));
                        }
                        assert(s.leading(p as int));
                    }
                    let ghost before = firsts@;
                    firsts.push(ShapeId::new(p));
                    proof {
                        let after = firsts@;
                        assert(after == before.push(ShapeId(p as u32)));
                        assert forall|i: int| 0 <= i < p + 1 && s.leading(i) implies indices(
                            after,
                        ).contains(i) by {
                            if i < start {
                                let k = choose|k: int|
                                    0 <= k < indices(before).len() && indices(before)[k] == i;
                                assert(indices(after)[k] == i);
                            } else {
                                assert(i == p);
                                assert(indices(after)[before.len() as int] == i);
                            }
                        }
                        assert forall|j: int, k: int| 0 <= j < k < after.len() implies after[j].0
                            < after[k].0 by {
                            if k == before.len() {
                                assert(before[j].0 < start);
                            }
                        }
                        assert(lists_leading(s, after, p + 1));
                        lemma_index_join(c as int, offset as int, w as int, cap as int);
                        assert(s.u[p as int] == self.u.bit(p as int));
                    }
                    if !u.get(offset) {
                        proof {
                            assert(!s.u[p as int]);
                            assert forall|i: int| p < i && s.leading(i) implies false by {
                                assert(s.hit(p as int) ==> s.u[p as int]);
                            }
                        }
                        return ;
                    }
                    if offset == w - 1 {
                        scanning = false;
                    } else {
                        offset = offset + 1;
                        let ghost prev = tv;
                        tv = tv.shr(o + 1);
                        proof {
                            assert forall|k: int| 0 <= k < w implies #[trigger] tv.bit(k) == (offset
                                + k < w && both.bit(offset + k)) by {
                                if k + o + 1 < w {
                                    assert(prev.bit(k + o + 1) == (offset - o - 1 + (k + o + 1) < w
                                        && both.bit(offset - o - 1 + (k + o + 1))));
                                }
                            }
                        }
                    }
                }
            }
            proof {
                assert((c + 1) * w == c * w + w) by (nonlinear_arith);
            }
            c += 1;
        }
        proof {
            reveal(lists_leading);
            assert(s.len() == self.t.bits());
        }
    }

    /// Whether this state may stand for `other`: wherever this state is decided, `other`
    /// is decided too and says the same.
    pub fn can_merge(&self, other: &Self) -> (r: bool)
        requires
            self.has_cap(self.t.chunks@.len()),
            other.has_cap(self.t.chunks@.len()),
        ensures
            r == self@.subsumes(other@),
    {
        let cap = self.u.chunks.len();
        let w = T::size();
        let zero = T::zero();
        proof {
            T::lemma_width_positive();
        }
        let ghost a = self@;
        let ghost b = other@;
        let mut c: usize = 0;
        while c < cap
            invariant
                c <= cap,
                self.has_cap(cap as nat),
                other.has_cap(cap as nat),
                w == T::width(),
                0 < w,
                a == self@,
                b == other@,
                forall|n: int| 0 <= n < T::width() ==> !#[trigger] zero.bit(n),
                a.len() == cap * w,
                b.len() == cap * w,
                forall|i: int|
                    0 <= i < a.len() && i < c * w && !a.u[i] ==> a.t[i] == b.t[i] && a.v[i] == b.v[i]
                        && !b.u[i],
            decreases cap - c,
        {
            let u = self.u.get_chunk(c);
            let nu = u.not();
            let t = self.t.get_chunk(c).and(nu);
            let v = self.v.get_chunk(c).and(nu);
            let o_t = other.t.get_chunk(c).and(nu);
            let o_v = other.v.get_chunk(c).and(nu);
            let o_u = nu.and(other.u.get_chunk(c));
            proof {
                assert forall|n: int| 0 <= n < w implies {
                    let i = c * w + n;
                    &&& 0 <= i < a.len()
                    &&& i < cap * w
                    &&& #[trigger] t.bit(n) == (a.t[i] && !a.u[i])
                    &&& v.bit(n) == (a.v[i] && !a.u[i])
                    &&& o_t.bit(n) == (b.t[i] && !a.u[i])
                    &&& o_v.bit(n) == (b.v[i] && !a.u[i])
                    &&& o_u.bit(n) == (b.u[i] && !a.u[i])
                } by {
                    let i = c * w + n;
                    lemma_index_join(c as int, n, w as int, cap as int);
                    assert(a.t[i] == self.t.bit(i) && a.v[i] == self.v.bit(i) && a.u[i]
                        == self.u.bit(i));
                    assert(b.t[i] == other.t.bit(i) && b.v[i] == other.v.bit(i) && b.u[i]
                        == other.u.bit(i));
                }
            }
            let same_t = t.same(o_t);
            let same_v = v.same(o_v);
            let included_u = o_u.same(zero);
            if !same_t || !same_v || !included_u {
                proof {
                    if a.subsumes(b) {
                        assert forall|n: int| 0 <= n < w implies t.bit(n) == o_t.bit(n) && v.bit(n)
                            == o_v.bit(n) && o_u.bit(n) == zero.bit(n) by {
                            let i = c * w + n;
                            assert(t.bit(n) == (a.t[i] && !a.u[i]));
                            assert(0 <= i < a.len());
                        }
                        T::lemma_bits_determine(t, o_t);
                        T::lemma_bits_determine(v, o_v);
                        T::lemma_bits_determine(o_u, zero);
                    }
                }
                return false;
            }
            proof {
                assert forall|i: int| 0 <= i < a.len() && i < (c + 1) * w && !a.u[i] implies a.t[i]
                    == b.t[i] && a.v[i] == b.v[i] && !b.u[i] by {
                    if i >= c * w {
                        assert((c + 1) * w == c * w + w) by (nonlinear_arith);
                        let n = i - c * w;
                        assert(t.bit(n) == o_t.bit(n) && v.bit(n) == o_v.bit(n) && o_u.bit(n)
                            == zero.bit(n));
                        assert(i == c * w + n);
                    }
                }
            }
            c += 1;
        }
        true
    }
}

impl<T: Bits> State<T> {
    /// Plays the clicks that are forced on this state, at most `limit` of them: as long
    /// as exactly one shape may be triggered, it is clicked. Returns the shapes clicked,
    /// and leaves in `firsts` the candidates of the state that is reached.
    pub fn forward(&mut self, ctx: &Context<T>, firsts: &mut Vec<ShapeId>, limit: usize) -> (forced: Vec<
        ShapeId,
    >)
        requires
            ctx.wf(),
            old(self).has_cap(ctx.cap as nat),
            old(self)@.clear_past(ctx.n as nat),
        ensures
            final(self).has_cap(ctx.cap as nat),
            final(self)@.clear_past(ctx.n as nat),
            indices(forced@) == old(self)@.forced(ctx, limit as nat),
            final(self)@ == old(self)@.forwarded(ctx, limit as nat),
            lists_leading(final(self)@, final(firsts)@, final(self)@.len() as int),
            forall|k: int| 0 <= k < forced@.len() ==> (#[trigger] forced@[k]).0 < ctx.n,
    {
        let ghost start = self@;
        let ghost len = self@.len();
        let mut forced: Vec<ShapeId> = Vec::new();
        let none: Vec<ShapeId> = Vec::new();
        self.firsts(firsts);
        let mut k: usize = 0;
        proof {
            reveal_with_fuel(StateView::forced, 2);
            assert(indices(forced@) =~= start.forced(ctx, 0));
            assert(start.patched(shapes_diff(ctx, Seq::<int>::empty(), len)) =~= start);
            assert(indices(none@) =~= Seq::<int>::empty());
        }
        while k < limit && firsts.len() == 1
            invariant
                k <= limit,
                ctx.wf(),
                self.has_cap(ctx.cap as nat),
                start.wf(),
                len == start.len(),
                len == ctx.bits(),
                none@.len() == 0,
                forced@.len() == k,
                indices(forced@) == start.forced(ctx, k as nat),
                self@ == start.through(ctx, indices(forced@)),
                self@.clear_past(ctx.n as nat),
                lists_leading(self@, firsts@, len as int),
                forall|j: int| 0 <= j < forced@.len() ==> (#[trigger] forced@[j]).0 < ctx.n,
            decreases limit - k,
        {
            let c = firsts[0];
            let ghost before = indices(forced@);
            proof {
                lemma_sole(self@, firsts@);
                reveal(lists_leading);
                assert(self@.leading(firsts@[0].0 as int));
                lemma_leading_is_shape(self@, ctx.n as nat, firsts@[0].0 as int);
                lemma_shapes_diff_covers(ctx, before, len);
                lemma_actions_diff_covers(ctx.actions_of(c.0 as int), len);
                lemma_patch_compose(
                    start,
                    shapes_diff(ctx, before, len),
                    step_diff(ctx.actions_of(c.0 as int), Seq::empty(), len),
                );
                assert(indices(none@) =~= Seq::<int>::empty());
            }
            forced.push(c);
            self.apply(ctx, c, none.as_slice());
            self.firsts(firsts);
            proof {
                reveal_with_fuel(StateView::forced, 2);
                let after = indices(forced@);
                assert(after =~= before.push(c.0 as int));
                assert(after.drop_last() =~= before);
                assert(start.forced(ctx, (k + 1) as nat) == before.push(c.0 as int));
            }
            k += 1;
        }
        proof {
            if k < limit {
                lemma_sole(self@, firsts@);
                lemma_forced_stops(start, ctx, k as nat, limit as nat);
            }
        }
        forced
    }
}

impl<T: Bits> Clone for State<T> {
    fn clone(&self) -> (r: Self)
        ensures
            r@ == self@,
            r.t.chunks@ == self.t.chunks@,
            r.v.chunks@ == self.v.chunks@,
            r.u.chunks@ == self.u.chunks@,
    {
        State { t: self.t.clone(), v: self.v.clone(), u: self.u.clone() }
    }
}

impl<T: Bits> Default for State<T> {
    fn default() -> (r: Self)
        ensures
            r.has_cap(0),
    {
        State { t: BitVec::default(), v: BitVec::default(), u: BitVec::default() }
    }
}

/// What the graph compiler works from: the number of shapes, what a click on each of them
/// does, the state that the presentation starts in, and the shapes that were marked as
/// never known.
#[derive(Debug)]
pub struct Context<T: Bits> {
    /// Number of shapes.
    pub n: usize,
    /// Number of chunks that hold them.
    pub cap: usize,
    /// For each shape, the actions that a click on it applies, in order.
    pub actions: Vec<Vec<Action<T>>>,
    /// The state before any click on a shape.
    pub root: State<T>,
    /// The shapes that the author marked as never known. They count as visible when a
    /// state is hashed.
    pub u: BitVec<T>,
}

impl<T: Bits> Context<T> {
    /// The context of `n` shapes in which no click does anything and the root state has
    /// nothing targeted, visible or unknown.
    pub fn new(n: usize) -> (r: Self)
        requires
            n + T::width() <= u32::MAX,
        ensures
            r.wf(),
            r.n == n,
            forall|s: int| 0 <= s < n ==> (#[trigger] r.actions@[s])@.len() == 0,
            r.root@.t == Seq::new(r.bits(), |i: int| false),
            r.root@.v == r.root@.t,
            r.root@.u == r.root@.t,
            r.u@ == r.root@.t,
    {
        proof {
            T::lemma_width_positive();
        }
        let w = T::size();
        let cap = (n + w - 1) / w;
        proof {
            let (ni, wi) = (n as int, w as int);
            vstd::arithmetic::div_mod::lemma_fundamental_div_mod(ni + wi - 1, wi);
            vstd::arithmetic::div_mod::lemma_mod_bound(ni + wi - 1, wi);
            assert(wi * (cap as int) == (cap as int) * wi) by (nonlinear_arith);
        }
        let mut actions: Vec<Vec<Action<T>>> = Vec::new();
        let mut k: usize = 0;
        while k < n
            invariant
                k <= n,
                actions@.len() == k,
                forall|s: int| 0 <= s < k ==> (#[trigger] actions@[s])@.len() == 0,
            decreases n - k,
        {
            actions.push(Vec::new());
            k += 1;
        }
        Context { n, cap, actions, root: State::new(cap), u: BitVec::new(cap) }
    }

    /// The sizes fit together: all of [`Context::wf`] but what it asks of the actions.
    pub open spec fn sizes_fit(&self) -> bool {
        &&& self.cap as int == (self.n + T::width() - 1) / (T::width() as int)
        &&& self.n <= self.bits() <= u32::MAX
        &&& self.actions@.len() == self.n
        &&& self.root.has_cap(self.cap as nat)
        &&& self.u.chunks@.len() == self.cap
        &&& self.root@.clear_past(self.n as nat)
        &&& forall|i: int| self.n <= i < self.u@.len() ==> !#[trigger] self.u@[i]
    }

    /// Action `k` of shape `s` names a chunk that exists, keeps its masks apart and
    /// touches shapes only.
    pub open spec fn fine(&self, s: int, k: int) -> bool {
        self.actions@[s]@[k].chunk < self.cap && self.actions@[s]@[k].wf() && self.actions@[s]@[k].within(
            self.n as nat,
        )
    }

    /// Action `k` of shape `s` is the first that is not fine, shape by shape and action by
    /// action.
    pub open spec fn is_first_fault(&self, s: int, k: int) -> bool {
        &&& 0 <= s < self.actions@.len()
        &&& 0 <= k < self.actions@[s]@.len()
        &&& !self.fine(s, k)
        &&& forall|s2: int, k2: int|
            0 <= s2 < self.actions@.len() && 0 <= k2 < self.actions@[s2]@.len() && (s2 < s || (s2 == s
                && k2 < k)) ==> #[trigger] self.fine(s2, k2)
    }

    /// The first action that is not fine names a chunk that exists, and its masks overlap.
    pub open spec fn first_fault_is_overlap(&self) -> bool {
        exists|s: int, k: int|
            #[trigger] self.is_first_fault(s, k) && self.actions@[s]@[k].chunk < self.cap
                && !self.actions@[s]@[k].wf()
    }

    /// `Ok` if the context is well formed. Else `MalformedAction` if the sizes fit and the
    /// first action at fault has masks that overlap; `IndexOutOfRange` if a size does not
    /// fit, if the root state or the marks hold something past the last shape, or if the
    /// first action at fault names a chunk that does not exist or touches a position past
    /// the last shape.
    pub fn check(&self) -> (r: Result<(), Error>)
        ensures
            r.is_ok() <==> self.wf(),
            r == Err::<(), Error>(Error::MalformedAction) <==> self.sizes_fit()
                && self.first_fault_is_overlap(),
            r == Err::<(), Error>(Error::IndexOutOfRange) <==> !self.wf() && !(self.sizes_fit()
                && self.first_fault_is_overlap()),
    {
        proof {
            T::lemma_width_positive();
        }
        let w = T::size();
        if self.cap > (u32::MAX as usize) / w {
            proof {
                let (wi, ci) = (w as int, self.cap as int);
                vstd::arithmetic::div_mod::lemma_fundamental_div_mod(u32::MAX as int, wi);
                vstd::arithmetic::div_mod::lemma_mod_bound(u32::MAX as int, wi);
                assert(ci * wi > u32::MAX) by (nonlinear_arith)
                    requires
                        u32::MAX == wi * (u32::MAX as int / wi) + (u32::MAX as int) % wi,
                        0 <= (u32::MAX as int) % wi < wi,
                        ci > u32::MAX as int / wi,
                        0 < wi,
                ;
            }
            return Err(Error::IndexOutOfRange);
        }
        proof {
            let (wi, ci) = (w as int, self.cap as int);
            vstd::arithmetic::div_mod::lemma_fundamental_div_mod(u32::MAX as int, wi);
            vstd::arithmetic::div_mod::lemma_mod_bound(u32::MAX as int, wi);
            assert(ci * wi <= u32::MAX) by (nonlinear_arith)
                requires
                    u32::MAX == wi * (u32::MAX as int / wi) + (u32::MAX as int) % wi,
                    0 <= (u32::MAX as int) % wi < wi,
                    0 <= ci <= u32::MAX as int / wi,
                    0 < wi,
            ;
        }
        if self.n > self.cap * w {
            return Err(Error::IndexOutOfRange);
        }
        let wide: u64 = (self.n as u64 + w as u64 - 1) / (w as u64);
        if self.cap as u64 != wide || self.actions.len() != self.n || self.root.t.cap() != self.cap
            || self.root.v.cap() != self.cap || self.root.u.cap() != self.cap || self.u.cap()
            != self.cap {
            return Err(Error::IndexOutOfRange);
        }
        let bits = self.cap * w;
        let mut i: usize = self.n;
        while i < bits
            invariant
                self.n <= i <= bits,
                bits == self.bits(),
                self.root.has_cap(self.cap as nat),
                self.u.chunks@.len() == self.cap,
                self.root@.len() == bits,
                self.root@.wf(),
                self.u@.len() == bits,
                forall|j: int| self.n <= j < i ==> !#[trigger] self.root.t@[j],
                forall|j: int| self.n <= j < i ==> !#[trigger] self.root.v@[j],
                forall|j: int| self.n <= j < i ==> !#[trigger] self.root.u@[j],
                forall|j: int| self.n <= j < i ==> !#[trigger] self.u@[j],
            decreases bits - i,
        {
            let (t, v, u) = (self.root.t.get(i), self.root.v.get(i), self.root.u.get(i));
            let marked = t || v || u;
            if marked || self.u.get(i) {
                proof {
                    if marked {
                        assert(self.root@.t[i as int] || self.root@.v[i as int] || self.root@.u[i as int]);
                    } else {
                        assert(self.u@[i as int]);
                    }
                    assert(!self.sizes_fit());
                }
                return Err(Error::IndexOutOfRange);
            }
            i += 1;
        }
        proof {
            assert forall|j: int| self.n <= j < self.root@.len() implies !#[trigger] self.root@.t[j]
                && !self.root@.v[j] && !self.root@.u[j] by {
                assert(!self.root.t@[j] && !self.root.v@[j] && !self.root.u@[j]);
            }
        }
        assert(self.sizes_fit());
        let mut s: usize = 0;
        while s < self.n
            invariant
                s <= self.n,
                self.sizes_fit(),
                forall|i: int, k: int|
                    0 <= i < s && 0 <= k < self.actions@[i]@.len() ==> #[trigger] self.fine(i, k),
            decreases self.n - s,
        {
            let list = &self.actions[s];
            let mut k: usize = 0;
            while k < list.len()
                invariant
                    k <= list@.len(),
                    s < self.n,
                    self.sizes_fit(),
                    list@ == self.actions@[s as int]@,
                    forall|i: int, j: int|
                        0 <= i < s && 0 <= j < self.actions@[i]@.len() ==> #[trigger] self.fine(i, j),
                    forall|j: int| 0 <= j < k ==> #[trigger] self.fine(s as int, j),
                decreases list@.len() - k,
            {
                if list[k].chunk >= self.cap {
                    proof {
                        assert(!self.fine(s as int, k as int));
                        assert forall|s2: int, k2: int| #[trigger]
                            self.is_first_fault(s2, k2) implies !(self.actions@[s2]@[k2].chunk
                            < self.cap) by {
                            if s2 < s || (s2 == s && k2 < k) {
                                assert(self.fine(s2, k2));
                            } else if s2 > s || k2 > k {
                                assert(self.fine(s as int, k as int));
                            }
                        }
                    }
                    return Err(Error::IndexOutOfRange);
                }
                proof {
                    assert(list@[k as int].chunk * T::width() + T::width() <= usize::MAX) by (nonlinear_arith)
                        requires
                            list@[k as int].chunk < self.cap,
                            self.cap * T::width() <= u32::MAX,
                            0 < T::width(),
                    ;
                }
                let shapes_only = list[k].fits(self.n);
                match list[k].check() {
                    Ok(()) => {
                        if !shapes_only {
                            proof {
                                assert(!self.fine(s as int, k as int));
                                assert forall|s2: int, k2: int| #[trigger]
                                    self.is_first_fault(s2, k2) implies self.actions@[s2]@[k2].wf() by {
                                    if s2 < s || (s2 == s && k2 < k) {
                                        assert(self.fine(s2, k2));
                                    } else if s2 > s || k2 > k {
                                        assert(self.fine(s as int, k as int));
                                    }
                                }
                            }
                            return Err(Error::IndexOutOfRange);
                        }
                        assert(self.fine(s as int, k as int));
                    },
                    Err(e) => {
                        proof {
                            assert(!self.fine(s as int, k as int));
                            assert(self.is_first_fault(s as int, k as int));
                        }
                        return Err(e);
                    },
                }
                k += 1;
            }
            s += 1;
        }
        proof {
            assert forall|s2: int, k2: int|
                0 <= s2 < self.n && 0 <= k2 < self.actions@[s2]@.len() implies (
            #[trigger] self.actions@[s2]@[k2]).chunk < self.cap && self.actions@[s2]@[k2].wf()
                && self.actions@[s2]@[k2].within(self.n as nat) by {
                assert(self.fine(s2, k2));
            }
            assert forall|s2: int, k2: int| #[trigger] self.is_first_fault(s2, k2) implies false by {
                assert(self.fine(s2, k2));
            }
        }
        Ok(())
    }

    /// The actions that a click on shape `s` applies; none where `s` names no shape.
    pub open spec fn actions_of(&self, s: int) -> Seq<Action<T>> {
        if 0 <= s < self.n {
            self.actions@[s]@
        } else {
            Seq::empty()
        }
    }

    /// Number of positions in each vector of a state.
    pub open spec fn bits(&self) -> nat {
        self.cap as nat * T::width()
    }

    /// The parts fit together: `cap` chunks are what `n` shapes need, every shape has its
    /// list of actions, every action names a chunk that exists, keeps its set and unset
    /// masks apart and touches shapes only, the root state and the marks are about shapes
    /// only, and every position fits a [`ShapeId`].
    pub open spec fn wf(&self) -> bool {
        &&& self.cap as int == (self.n + T::width() - 1) / (T::width() as int)
        &&& self.n <= self.bits() <= u32::MAX
        &&& self.actions@.len() == self.n
        &&& forall|s: int, k: int|
            0 <= s < self.n && 0 <= k < self.actions@[s]@.len() ==> (#[trigger] self.actions@[s]@[k]).chunk
                < self.cap && self.actions@[s]@[k].wf() && self.actions@[s]@[k].within(self.n as nat)
        &&& self.root.has_cap(self.cap as nat)
        &&& self.u.chunks@.len() == self.cap
        &&& self.root@.clear_past(self.n as nat)
        &&& forall|i: int| self.n <= i < self.u@.len() ==> !#[trigger] self.u@[i]
    }
}

} // verus!
