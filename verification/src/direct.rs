//! A presentation that is played directly: every click applies the next batch of
//! animations of the context that it lands on.
//!
//! The animations of a context fall into batches: a batch ends where an animation is
//! marked as starting after a click. Each context has a cursor. A click plays the batch
//! under the cursor and moves the cursor on. The cursor of a shape wraps around; when the
//! global context is played out, a click that falls to it is the end of the presentation.

use crate::action::{actions_diff, Action, Diff, Tri};
use crate::animate::{
    actions_sorted, anims_diff, base_state, base_view, classify, fold_decision, resolve, seed_of,
    seed_track, seeded, seeded_tracks, shape_at, target_of,
};
use crate::bits::Bits;
use crate::compiler::{Context, State, StateView};
use crate::error::Error;
use crate::filters::Cell;
use crate::flatten::{
    flat_scene, flatten, has_group, holds_group, refs_scene, Flattened, ShapeConstState,
};
use crate::playback::{first_hit, render_state, under, Picture, RenderingContext};
use crate::render::Canvas;
use crate::scene::{Animation, Color, Referer, Slide};
use vstd::prelude::*;

verus! {

/// A pair of masks over one cell: the bits to set and the bits to clear.
#[derive(Clone, Copy, Debug, PartialEq, Eq, Structural)]
pub struct CellOp {
    pub set: Cell,
    pub unset: Cell,
}

impl Default for CellOp {
    fn default() -> (r: Self)
        ensures
            r.set == 0,
            r.unset == 0,
    {
        CellOp { set: 0, unset: 0 }
    }
}

impl CellOp {
    /// Marks the bits of `val` as bits to set, and no longer as bits to clear.
    pub fn set(&mut self, val: Cell)
        ensures
            forall|n: int|
                0 <= n < 64 ==> #[trigger] final(self).set.bit(n) == (old(self).set.bit(n) || val.bit(n))
                    && final(self).unset.bit(n) == (old(self).unset.bit(n) && !val.bit(n)),
    {
        self.set = self.set.or(val);
        self.unset = self.unset.and(Bits::not(val));
    }

    /// Marks the bits of `val` as bits to clear, and no longer as bits to set.
    pub fn unset(&mut self, val: Cell)
        ensures
            forall|n: int|
                0 <= n < 64 ==> #[trigger] final(self).unset.bit(n) == (old(self).unset.bit(n) || val.bit(
                    n,
                )) && final(self).set.bit(n) == (old(self).set.bit(n) && !val.bit(n)),
    {
        self.set = self.set.and(Bits::not(val));
        self.unset = self.unset.or(val);
    }
}

/// What a batch does to the shapes of one cell: to their visibility, and to whether they
/// sit on the focus point.
#[derive(Clone, Copy, Debug, PartialEq, Eq, Structural)]
pub struct BasicAnimation {
    pub cell: usize,
    pub visibility: CellOp,
    pub targeting: CellOp,
}

impl BasicAnimation {
    /// The same as an action over 64-bit chunks.
    pub fn action(&self) -> (r: Action<Cell>)
        ensures
            r.chunk == self.cell,
            r.set_v == self.visibility.set,
            r.unset_v == self.visibility.unset,
            r.set_t == self.targeting.set,
            r.unset_t == self.targeting.unset,
    {
        Action {
            chunk: self.cell,
            set_t: self.targeting.set,
            unset_t: self.targeting.unset,
            set_v: self.visibility.set,
            unset_v: self.visibility.unset,
        }
    }
}

/// The batches of a context, each lowered to actions, and the cursor.
#[derive(Debug)]
pub struct BasicContext<T: Bits> {
    /// Number of batches played since the cursor last stood at the start.
    pub head: usize,
    /// The batches, in the order in which they play.
    pub animations: Vec<Vec<Action<T>>>,
}

impl<T: Bits> Default for BasicContext<T> {
    fn default() -> (r: Self)
        ensures
            r.head == 0,
            r.animations@.len() == 0,
    {
        BasicContext { head: 0, animations: Vec::new() }
    }
}

/// The batch that a click plays when the cursor of a context of `n` batches stands at
/// `head`, and where the cursor stands afterwards. The cursor of a context that is bound
/// to a shape wraps around; for the global context there is nothing to play past the end.
pub open spec fn advanced(head: nat, n: nat, bound: bool) -> Option<(nat, nat)> {
    if head < n {
        Some((head, head + 1))
    } else if bound && n > 0 {
        Some((0, 1))
    } else {
        None
    }
}

/// Where the cursor of a context of `n` batches, bound to a shape, stands after `k`
/// clicks from the start.
pub open spec fn head_after(n: nat, k: nat) -> nat
    decreases k,
{
    if k == 0 {
        0
    } else {
        match advanced(head_after(n, (k - 1) as nat), n, true) {
            Some((_, head)) => head,
            None => 0,
        }
    }
}

/// The batch that the `k`-th click on a context of `n` batches, bound to a shape, plays;
/// clicks count from 1.
pub open spec fn batch_of_click(n: nat, k: nat) -> Option<nat> {
    if k == 0 {
        None
    } else {
        match advanced(head_after(n, (k - 1) as nat), n, true) {
            Some((batch, _)) => Some(batch),
            None => None,
        }
    }
}

/// The first `n` clicks on a context of `n` batches, bound to a shape, play its batches in
/// order.
pub proof fn lemma_clicks_in_order(n: nat, k: nat)
    requires
        1 <= k <= n,
    ensures
        head_after(n, k) == k,
        batch_of_click(n, k) == Some((k - 1) as nat),
    decreases k,
{
    if k > 1 {
        lemma_clicks_in_order(n, (k - 1) as nat);
    }
}

/// A context of `n` batches that is bound to a shape and is clicked `n + 1` times plays
/// its first batch again on the last click.
pub proof fn lemma_context_cycle(n: nat)
    requires
        n >= 1,
    ensures
        batch_of_click(n, n + 1) == Some(0nat),
        head_after(n, n + 1) == 1,
{
    lemma_clicks_in_order(n, n);
}

impl<T: Bits> BasicContext<T> {
    /// Moves the cursor for one click, and returns the index of the batch to play.
    /// `bound` tells whether the context belongs to a shape. The global context, once
    /// played out, fails with `ExhaustedGlobalContext` and stays as it is; so does a
    /// context without batches.
    pub fn advance(&mut self, bound: bool) -> (r: Result<usize, Error>)
        ensures
            final(self).animations == old(self).animations,
            match advanced(old(self).head as nat, old(self).animations@.len(), bound) {
                Some((batch, head)) => r == Ok::<usize, Error>(batch as usize) && final(self).head
                    == head && batch < old(self).animations@.len(),
                None => r == Err::<usize, Error>(Error::ExhaustedGlobalContext) && final(self).head
                    == old(self).head,
            },
    {
        let n = self.animations.len();
        if self.head < n {
            let batch = self.head;
            self.head = batch + 1;
            Ok(batch)
        } else if bound && n > 0 {
            self.head = 1;
            Ok(0)
        } else {
            Err(Error::ExhaustedGlobalContext)
        }
    }
}

/// The run of animations that one click plays in a list that was not cut into batches.
/// `flags` holds for each animation whether it waits for a click, `head` is the cursor of
/// the list, and `bound` tells whether the list belongs to a shape. The run starts at the
/// cursor, or at the first animation where the cursor stands at the end of a list that is
/// bound to a shape, and ends before the next animation that waits for a click. The cursor
/// then belongs at the end of the run. The global list, once played out, gives
/// `ExhaustedGlobalContext`; so does an empty list.
pub fn next_run(flags: &[bool], head: usize, bound: bool) -> (r: Result<(usize, usize), Error>)
    ensures
        match r {
            Ok((start, end)) => flags@.len() > 0 && start < end <= flags@.len() && start == (if head
                < flags@.len() {
                head as int
            } else {
                0
            }) && (forall|k: int| start < k < end ==> !flags@[k]) && (end == flags@.len()
                || flags@[end as int]),
            Err(e) => e == Error::ExhaustedGlobalContext && head >= flags@.len() && (!bound
                || flags@.len() == 0),
        },
        r.is_ok() <==> head < flags@.len() || (bound && flags@.len() > 0),
{
    let n = flags.len();
    let start: usize = if head < n {
        head
    } else if bound && n > 0 {
        0
    } else {
        return Err(Error::ExhaustedGlobalContext);
    };
    let mut end: usize = start + 1;
    while end < n && !flags[end]
        invariant
            start < end <= n,
            n == flags@.len(),
            forall|k: int| start < k < end ==> !flags@[k],
        decreases n - end,
    {
        end += 1;
    }
    Ok((start, end))
}

/// The batches of a list of animations: a batch ends before every animation, but the
/// first, that is marked as starting after a click.
pub open spec fn batches(anims: Seq<Animation>) -> Seq<Seq<Animation>>
    decreases anims.len(),
{
    if anims.len() == 0 {
        Seq::empty()
    } else {
        let before = batches(anims.drop_last());
        if before.len() == 0 || anims.last().click {
            before.push(seq![anims.last()])
        } else {
            before.update(before.len() - 1, before.last().push(anims.last()))
        }
    }
}

/// Every animation aims at a shape.
pub open spec fn targets_ok(refs: Seq<Referer>, anims: Seq<Animation>, n: nat) -> bool {
    forall|k: int| 0 <= k < anims.len() ==> target_of(refs, #[trigger] anims[k], n) is Some
}

/// Whether `lowered` holds the batches of `anims`, each folded into actions, one to a
/// chunk, that decide what its animations decide.
pub open spec fn holds_batches<T: Bits>(
    lowered: Seq<Vec<Action<T>>>,
    refs: Seq<Referer>,
    states: Seq<ShapeConstState>,
    focus: (int, int),
    anims: Seq<Animation>,
    cap: nat,
) -> bool {
    &&& lowered.len() == batches(anims).len()
    &&& forall|j: int|
        0 <= j < lowered.len() ==> actions_sorted((#[trigger] lowered[j])@, cap) && actions_diff(
            lowered[j]@,
            cap * T::width(),
        ) == anims_diff(refs, states, focus, batches(anims)[j], cap * T::width())
}

/// Lowers the animations of one context, batch by batch. Fails with `UnsupportedTarget`
/// if an animation aims at a group or at a shape that was never declared.
pub fn init_context<T: Bits>(
    anims: &Vec<Animation>,
    refs: &Vec<Referer>,
    shapes_const: &Vec<ShapeConstState>,
    target_xy: (i32, i32),
    cap: usize,
) -> (r: Result<BasicContext<T>, Error>)
    requires
        shapes_const@.len() <= cap * T::width(),
    ensures
        match r {
            Ok(context) => {
                &&& targets_ok(refs@, anims@, shapes_const@.len())
                &&& context.head == 0
                &&& holds_batches(
                    context.animations@,
                    refs@,
                    shapes_const@,
                    (target_xy.0 as int, target_xy.1 as int),
                    anims@,
                    cap as nat,
                )
            },
            Err(e) => e == Error::UnsupportedTarget && !targets_ok(refs@, anims@, shapes_const@.len()),
        },
{
    let ghost len = cap as nat * T::width();
    let ghost at = (target_xy.0 as int, target_xy.1 as int);
    let ghost n = shapes_const@.len();
    let mut animations: Vec<Vec<Action<T>>> = Vec::new();
    let mut current: Vec<Action<T>> = Vec::new();
    let mut k: usize = 0;
    proof {
        assert(anims@.take(0) =~= Seq::<Animation>::empty());
    }
    while k < anims.len()
        invariant
            k <= anims@.len(),
            n == shapes_const@.len(),
            n <= cap * T::width(),
            len == cap as nat * T::width(),
            at == (target_xy.0 as int, target_xy.1 as int),
            targets_ok(refs@, anims@.take(k as int), n),
            actions_sorted(current@, cap as nat),
            k == 0 ==> animations@.len() == 0 && current@.len() == 0,
            batches(anims@.take(k as int)).len() == (if k == 0 {
                0
            } else {
                animations@.len() + 1
            }),
            forall|j: int|
                0 <= j < animations@.len() ==> actions_sorted((#[trigger] animations@[j])@, cap as nat)
                    && actions_diff(animations@[j]@, len) == anims_diff(
                    refs@,
                    shapes_const@,
                    at,
                    batches(anims@.take(k as int))[j],
                    len,
                ),
            k > 0 ==> actions_diff(current@, len) == anims_diff(
                refs@,
                shapes_const@,
                at,
                batches(anims@.take(k as int)).last(),
                len,
            ),
        decreases anims@.len() - k,
    {
        let a = anims[k];
        let index = match resolve(refs, a.target.index(), shapes_const.len()) {
            Some(index) => index,
            None => {
                return Err(Error::UnsupportedTarget);
            },
        };
        let ghost prefix = anims@.take(k as int);
        let ghost before = batches(prefix);
        let ghost now = batches(anims@.take(k + 1));
        proof {
            assert(anims@.take(k + 1).drop_last() =~= prefix);
            assert(anims@.take(k + 1).last() == a);
            assert forall|j: int| 0 <= j < k + 1 implies target_of(
                refs@,
                #[trigger] anims@.take(k + 1)[j],
                n,
            ) is Some by {
                if j < k {
                    assert(anims@.take(k + 1)[j] == prefix[j]);
                }
            }
        }
        if k > 0 && a.click {
            animations.push(current);
            current = Vec::new();
            proof {
                assert(now == before.push(seq![a]));
                assert forall|j: int| 0 <= j < animations@.len() implies actions_sorted(
                    (#[trigger] animations@[j])@,
                    cap as nat,
                ) && actions_diff(animations@[j]@, len) == anims_diff(
                    refs@,
                    shapes_const@,
                    at,
                    now[j],
                    len,
                ) by {
                    assert(now[j] == before[j]);
                }
            }
        } else {
            proof {
                if k > 0 {
                    assert(now == before.update(before.len() - 1, before.last().push(a)));
                    assert forall|j: int| 0 <= j < animations@.len() implies actions_sorted(
                        (#[trigger] animations@[j])@,
                        cap as nat,
                    ) && actions_diff(animations@[j]@, len) == anims_diff(
                        refs@,
                        shapes_const@,
                        at,
                        now[j],
                        len,
                    ) by {
                        assert(now[j] == before[j]);
                    }
                } else {
                    assert(now == before.push(seq![a]));
                }
            }
        }
        let rest = (shapes_const[index].x, shapes_const[index].y);
        let (v, t) = classify(&a.effect, rest, target_xy);
        fold_decision(&mut current, index, v, t, cap);
        proof {
            let batch = now.last();
            assert(batch.last() == a);
            if k > 0 && !a.click {
                assert(batch.drop_last() =~= before.last());
            } else {
                assert(batch.drop_last() =~= Seq::<Animation>::empty());
                assert(anims_diff(refs@, shapes_const@, at, batch.drop_last(), len) == Diff::none(len));
                assert(actions_diff(Seq::<Action<T>>::empty(), len) == Diff::none(len));
            }
        }
        k += 1;
    }
    proof {
        assert(anims@.take(k as int) =~= anims@);
    }
    if k > 0 {
        animations.push(current);
    }
    Ok(BasicContext { head: 0, animations })
}

/// The lowered contexts of a scene: the global one, and one for each shape.
#[derive(Debug)]
pub struct BasicTimeline<T: Bits> {
    pub main_context: BasicContext<T>,
    pub contexts: Vec<BasicContext<T>>,
}

/// Every action of every batch lies within `cap` chunks.
pub open spec fn batches_fit<T: Bits>(context: &BasicContext<T>, cap: nat) -> bool {
    forall|j: int, k: int|
        0 <= j < context.animations@.len() && 0 <= k < context.animations@[j]@.len() ==> (
        #[trigger] context.animations@[j]@[k]).chunk < cap
}

/// Whether every action of every batch lies within `cap` chunks.
pub fn fits<T: Bits>(context: &BasicContext<T>, cap: usize) -> (r: bool)
    ensures
        r == batches_fit(context, cap as nat),
{
    let mut j: usize = 0;
    while j < context.animations.len()
        invariant
            j <= context.animations@.len(),
            forall|a: int, k: int|
                0 <= a < j && 0 <= k < context.animations@[a]@.len() ==> (
                #[trigger] context.animations@[a]@[k]).chunk < cap,
        decreases context.animations@.len() - j,
    {
        let batch = &context.animations[j];
        let mut k: usize = 0;
        while k < batch.len()
            invariant
                k <= batch@.len(),
                j < context.animations@.len(),
                batch@ == context.animations@[j as int]@,
                forall|b: int| 0 <= b < k ==> (#[trigger] batch@[b]).chunk < cap,
            decreases batch@.len() - k,
        {
            if batch[k].chunk >= cap {
                assert(!(context.animations@[j as int]@[k as int].chunk < cap));
                return false;
            }
            k += 1;
        }
        j += 1;
    }
    true
}

/// A scene that is played directly.
#[derive(Debug)]
pub struct Presentation<T: Bits> {
    /// Whether each shape is targeted and visible; nothing is ever unknown.
    pub states_dyn: State<T>,
    pub states_const: Vec<ShapeConstState>,
    pub timeline: BasicTimeline<T>,
    pub target: (i32, i32),
    pub width: u32,
    pub height: u32,
}

/// The state in which a scene starts when it is played directly, over `len` positions: a
/// shape is targeted if it rests on the focus point, and visible unless it is assumed
/// hidden and not marked as never known; nothing is unknown.
pub open spec fn start_view(
    states: Seq<ShapeConstState>,
    seed: Seq<Tri>,
    focus: (int, int),
    len: nat,
) -> StateView {
    StateView {
        t: base_view(states, seed, focus, len).t,
        v: base_view(states, seed, focus, len).v,
        u: Seq::new(len, |i: int| false),
    }
}

/// The animations that clicks on the shape of compiled index `s` play, once the first `k`
/// contexts of the timeline were lowered.
pub open spec fn track_of(
    refs: Seq<Referer>,
    n: nat,
    tracks: Seq<crate::scene::Context>,
    k: nat,
    s: int,
) -> Seq<Animation>
    decreases k,
{
    if k == 0 || k > tracks.len() {
        Seq::empty()
    } else if tracks[k - 1].animations@.len() > 0 && shape_at(refs, k - 1, n) == Some(s) {
        tracks[k - 1].animations@
    } else {
        track_of(refs, n, tracks, (k - 1) as nat, s)
    }
}

/// Every context of the first `k` that holds animations is bound to a shape and aims at
/// shapes only.
pub open spec fn tracks_ok(refs: Seq<Referer>, n: nat, tracks: Seq<crate::scene::Context>, k: nat) -> bool {
    forall|id: int|
        0 <= id < k && id < tracks.len() && (#[trigger] tracks[id]).animations@.len() > 0 ==> shape_at(
            refs,
            id,
            n,
        ) is Some && targets_ok(refs, tracks[id].animations@, n)
}

impl<T: Bits> Presentation<T> {
    /// There is a context for each shape, and the state and the batches fit the shapes.
    pub open spec fn wf(&self) -> bool {
        &&& self.states_dyn.has_cap(self.states_dyn.t.chunks@.len())
        &&& self.states_const@.len() <= self.states_dyn.t.bits()
        &&& self.timeline.contexts@.len() == self.states_const@.len()
        &&& batches_fit(&self.timeline.main_context, self.states_dyn.t.chunks@.len())
        &&& forall|s: int|
            0 <= s < self.timeline.contexts@.len() ==> batches_fit(
                #[trigger] &self.timeline.contexts@[s],
                self.states_dyn.t.chunks@.len(),
            )
    }

    /// The focus point.
    pub open spec fn focus(&self) -> (int, int) {
        (self.target.0 as int, self.target.1 as int)
    }

    /// Whether the parts fit together, so that the presentation can be played and drawn.
    pub fn check(&self) -> (r: bool)
        ensures
            r == self.wf(),
    {
        let cap = self.states_dyn.t.cap();
        if self.states_dyn.v.cap() != cap || self.states_dyn.u.cap() != cap {
            return false;
        }
        let n = self.states_const.len();
        let room = n == 0 || self.states_dyn.t.in_range(n - 1);
        if !room || self.timeline.contexts.len() != n || !fits(&self.timeline.main_context, cap) {
            return false;
        }
        let mut s: usize = 0;
        while s < self.timeline.contexts.len()
            invariant
                s <= self.timeline.contexts@.len(),
                cap == self.states_dyn.t.chunks@.len(),
                forall|j: int|
                    0 <= j < s ==> batches_fit(#[trigger] &self.timeline.contexts@[j], cap as nat),
            decreases self.timeline.contexts@.len() - s,
        {
            if !fits(&self.timeline.contexts[s], cap) {
                return false;
            }
            s += 1;
        }
        true
    }

    /// Prepares a scene for playing, with `target` as the focus point. No entry of the
    /// scene may be a group, and every context of the timeline must belong to a shape and
    /// aim at shapes; the call fails with `UnsupportedTarget` if one does not, with
    /// `IndexOutOfRange` if an entry of the scene does not carry its index, and with
    /// `CapacityExceeded` if the shapes are too many. A scene that holds a group is
    /// refused whatever else it holds.
    pub fn from(slide: &Slide, target: (i32, i32)) -> (r: Result<Self, Error>)
        ensures
            match r {
                Ok(p) => {
                    let refs = refs_scene(slide.shapes@);
                    let states = flat_scene(slide.shapes@);
                    let cap = p.states_dyn.t.chunks@.len();
                    &&& !holds_group(slide.shapes@)
                    &&& slide.wf()
                    &&& p.wf()
                    &&& p.states_const@ == states
                    &&& p.target == target
                    &&& p.width == slide.width
                    &&& p.height == slide.height
                    &&& p.states_dyn@ == start_view(
                        states,
                        seed_of(refs, slide.timeline, states.len()),
                        p.focus(),
                        p.states_dyn@.len(),
                    )
                    &&& targets_ok(refs, slide.timeline.main_context.animations@, states.len())
                    &&& tracks_ok(refs, states.len(), slide.timeline.contexts@, slide.timeline.contexts@.len())
                    &&& p.timeline.main_context.head == 0
                    &&& holds_batches(
                        p.timeline.main_context.animations@,
                        refs,
                        states,
                        p.focus(),
                        slide.timeline.main_context.animations@,
                        cap,
                    )
                    &&& forall|s: int|
                        0 <= s < states.len() ==> (#[trigger] p.timeline.contexts@[s]).head == 0
                            && holds_batches(
                            p.timeline.contexts@[s].animations@,
                            refs,
                            states,
                            p.focus(),
                            track_of(
                                refs,
                                states.len(),
                                slide.timeline.contexts@,
                                slide.timeline.contexts@.len(),
                                s,
                            ),
                            cap,
                        )
                },
                Err(e) => {
                    let refs = refs_scene(slide.shapes@);
                    let n = flat_scene(slide.shapes@).len();
                    ||| e == Error::UnsupportedTarget && holds_group(slide.shapes@)
                    ||| e == Error::IndexOutOfRange && !holds_group(slide.shapes@) && !slide.wf()
                    ||| e == Error::CapacityExceeded && !holds_group(slide.shapes@) && slide.wf() && n
                        + T::width() > u32::MAX
                    ||| e == Error::UnsupportedTarget && !holds_group(slide.shapes@) && slide.wf() && n
                        + T::width() <= u32::MAX && !(targets_ok(
                        refs,
                        slide.timeline.main_context.animations@,
                        n,
                    ) && tracks_ok(refs, n, slide.timeline.contexts@, slide.timeline.contexts@.len()))
                },
            },
    {
        if has_group(&slide.shapes) {
            return Err(Error::UnsupportedTarget);
        }
        let flat = match flatten(&slide.shapes) {
            Ok(flat) => flat,
            Err(e) => {
                return Err(e);
            },
        };
        let Flattened { refs, states } = flat;
        proof {
            T::lemma_width_positive();
        }
        let n = states.len();
        let w = T::size();
        if n > (u32::MAX as usize) - w {
            return Err(Error::CapacityExceeded);
        }
        let sized: Context<T> = Context::new(n);
        let cap = sized.cap;
        let ghost len = sized.bits();
        let ghost at = (target.0 as int, target.1 as int);
        let mut seed: Vec<Tri> = Vec::new();
        let mut i: usize = 0;
        while i < n
            invariant
                i <= n,
                seed@ == Seq::new(i as nat, |j: int| Tri::U),
            decreases n - i,
        {
            seed.push(Tri::U);
            assert(seed@ =~= Seq::new((i + 1) as nat, |j: int| Tri::U));
            i += 1;
        }
        seed_track(&refs, &slide.timeline.main_context.animations, &mut seed);
        let main_context: BasicContext<T> = match init_context(
            &slide.timeline.main_context.animations,
            &refs,
            &states,
            target,
            cap,
        ) {
            Ok(context) => context,
            Err(e) => {
                return Err(e);
            },
        };
        let mut contexts: Vec<BasicContext<T>> = Vec::new();
        let mut s: usize = 0;
        while s < n
            invariant
                s <= n,
                contexts@.len() == s,
                forall|j: int|
                    0 <= j < s ==> (#[trigger] contexts@[j]).head == 0 && contexts@[j].animations@.len()
                        == 0,
            decreases n - s,
        {
            contexts.push(BasicContext::default());
            s += 1;
        }
        let tracks = &slide.timeline.contexts;
        let mut id: usize = 0;
        proof {
            assert forall|s: int| 0 <= s < n implies holds_batches(
                (#[trigger] contexts@[s]).animations@,
                refs@,
                states@,
                at,
                track_of(refs@, n as nat, tracks@, 0, s),
                cap as nat,
            ) by {
                assert(batches(Seq::<Animation>::empty()).len() == 0);
            }
        }
        while id < tracks.len()
            invariant
                id <= tracks@.len(),
                tracks@ == slide.timeline.contexts@,
                n == states@.len(),
                n <= len,
                len == cap as nat * T::width(),
                at == (target.0 as int, target.1 as int),
                slide.wf(),
                refs@ == refs_scene(slide.shapes@),
                states@ == flat_scene(slide.shapes@),
                n + T::width() <= u32::MAX,
                targets_ok(refs@, slide.timeline.main_context.animations@, n as nat),
                seed@.len() == n,
                seed@ == seeded_tracks(
                    refs@,
                    tracks@,
                    id as nat,
                    seeded(
                        refs@,
                        slide.timeline.main_context.animations@,
                        Seq::new(n as nat, |j: int| Tri::U),
                    ),
                ),
                contexts@.len() == n,
                tracks_ok(refs@, n as nat, tracks@, id as nat),
                forall|s: int|
                    0 <= s < n ==> (#[trigger] contexts@[s]).head == 0 && holds_batches(
                        contexts@[s].animations@,
                        refs@,
                        states@,
                        at,
                        track_of(refs@, n as nat, tracks@, id as nat, s),
                        cap as nat,
                    ),
            decreases tracks@.len() - id,
        {
            let ghost track = tracks@[id as int];
            if tracks[id].animations.len() > 0 {
                let trigger = match resolve(&refs, id, n) {
                    Some(trigger) => trigger,
                    None => {
                        proof {
                            if tracks_ok(refs@, n as nat, tracks@, tracks@.len()) {
                                assert(track.animations@.len() > 0);
                                assert(shape_at(refs@, id as int, n as nat) is Some);
                            }
                        }
                        return Err(Error::UnsupportedTarget);
                    },
                };
                let lowered: BasicContext<T> = match init_context(
                    &tracks[id].animations,
                    &refs,
                    &states,
                    target,
                    cap,
                ) {
                    Ok(context) => context,
                    Err(e) => {
                        proof {
                            if tracks_ok(refs@, n as nat, tracks@, tracks@.len()) {
                                assert(track.animations@.len() > 0);
                                assert(targets_ok(refs@, track.animations@, n as nat));
                            }
                        }
                        return Err(e);
                    },
                };
                contexts.set(trigger, lowered);
            }
            seed_track(&refs, &tracks[id].animations, &mut seed);
            proof {
                assert forall|j: int|
                    0 <= j < id + 1 && j < tracks@.len() && (#[trigger] tracks@[j]).animations@.len()
                        > 0 implies shape_at(refs@, j, n as nat) is Some && targets_ok(
                    refs@,
                    tracks@[j].animations@,
                    n as nat,
                ) by {
                    if j < id {
                        assert(tracks_ok(refs@, n as nat, tracks@, id as nat));
                    }
                }
            }
            id += 1;
        }
        let mut states_dyn: State<T> = base_state(&states, &seed, target, cap);
        states_dyn.u.clear();
        proof {
            let goal = start_view(states@, seed@, at, len);
            assert(states_dyn@.u =~= goal.u);
        }
        let p = Presentation {
            states_dyn,
            states_const: states,
            timeline: BasicTimeline { main_context, contexts },
            target,
            width: slide.width,
            height: slide.height,
        };
        proof {
            assert forall|s: int| 0 <= s < p.timeline.contexts@.len() implies batches_fit(
                #[trigger] &p.timeline.contexts@[s],
                cap as nat,
            ) by {
                let c = p.timeline.contexts@[s];
                assert forall|j: int, k: int|
                    0 <= j < c.animations@.len() && 0 <= k < c.animations@[j]@.len() implies (
                #[trigger] c.animations@[j]@[k]).chunk < cap by {
                    assert(actions_sorted(c.animations@[j]@, cap as nat));
                }
            }
            assert forall|j: int, k: int|
                0 <= j < p.timeline.main_context.animations@.len() && 0 <= k
                    < p.timeline.main_context.animations@[j]@.len() implies (
            #[trigger] p.timeline.main_context.animations@[j]@[k]).chunk < cap by {
                assert(actions_sorted(p.timeline.main_context.animations@[j]@, cap as nat));
            }
        }
        Ok(p)
    }

    /// The topmost visible shape on which the point `(x, y)` lies, if there is one.
    pub fn under(&self, x: i32, y: i32) -> (r: Option<usize>)
        requires
            self.wf(),
        ensures
            match r {
                Some(i) => i < self.states_const@.len() && first_hit(
                    self.states_const@,
                    self.states_dyn@,
                    self.focus(),
                    x as int,
                    y as int,
                    0,
                ) == Some(i as int),
                None => first_hit(
                    self.states_const@,
                    self.states_dyn@,
                    self.focus(),
                    x as int,
                    y as int,
                    0,
                ) is None,
            },
    {
        under(self.states_const.as_slice(), &self.states_dyn, self.target, x, y)
    }

    /// The shape whose context a click on `(x, y)` plays: the topmost visible shape under
    /// the point, if it has batches. A click elsewhere plays the global context.
    pub open spec fn clicked_shape(&self, x: int, y: int) -> Option<int> {
        match first_hit(self.states_const@, self.states_dyn@, self.focus(), x, y, 0) {
            Some(i) => if self.timeline.contexts@[i].animations@.len() > 0 {
                Some(i)
            } else {
                None
            },
            None => None,
        }
    }

    /// The context that a click on `(x, y)` plays.
    pub open spec fn clicked_context(&self, x: int, y: int) -> BasicContext<T> {
        match self.clicked_shape(x, y) {
            Some(i) => self.timeline.contexts@[i],
            None => self.timeline.main_context,
        }
    }

    /// Plays a click on the point `(x, y)`: the context of the topmost visible shape under
    /// the point, or the global context if there is no such shape or it has no batches,
    /// plays its next batch on the state. When the click falls to the global context and
    /// that context is played out, the call fails with `ExhaustedGlobalContext` and the
    /// presentation stays as it is.
    pub fn click(&mut self, x: i32, y: i32) -> (r: Result<(), Error>)
        requires
            old(self).wf(),
        ensures
            final(self).wf(),
            final(self).states_const == old(self).states_const,
            final(self).target == old(self).target,
            final(self).width == old(self).width,
            final(self).height == old(self).height,
            ({
                let shape = old(self).clicked_shape(x as int, y as int);
                let context = old(self).clicked_context(x as int, y as int);
                match advanced(context.head as nat, context.animations@.len(), shape is Some) {
                    Some((batch, head)) => {
                        &&& r.is_ok()
                        &&& final(self).states_dyn@ == old(self).states_dyn@.patched(
                            actions_diff(context.animations@[batch as int]@, old(self).states_dyn@.len()),
                        )
                        &&& final(self).clicked_context_at(shape).head == head
                        &&& final(self).clicked_context_at(shape).animations == context.animations
                        &&& forall|s: int|
                            0 <= s < old(self).timeline.contexts@.len() && shape != Some(s) ==> (
                            #[trigger] final(self).timeline.contexts@[s]) == old(self).timeline.contexts@[s]
                        &&& shape is Some ==> final(self).timeline.main_context
                            == old(self).timeline.main_context
                    },
                    None => r == Err::<(), Error>(Error::ExhaustedGlobalContext)
                        && *final(self) == *old(self),
                }
            }),
    {
        let hit = under(self.states_const.as_slice(), &self.states_dyn, self.target, x, y);
        let bound = match hit {
            Some(i) => self.timeline.contexts[i].animations.len() > 0,
            None => false,
        };
        if bound {
            let i = hit.unwrap();
            let ghost before = self.timeline.contexts@;
            let context = &mut self.timeline.contexts[i];
            match context.advance(true) {
                Ok(batch) => {
                    self.states_dyn.apply_all(&self.timeline.contexts[i].animations[batch]);
                    Ok(())
                },
                Err(e) => Err(e),
            }
        } else {
            match self.timeline.main_context.advance(false) {
                Ok(batch) => {
                    self.states_dyn.apply_all(&self.timeline.main_context.animations[batch]);
                    Ok(())
                },
                Err(e) => Err(e),
            }
        }
    }

    /// The context of `shape`, or the global context if there is none.
    pub open spec fn clicked_context_at(&self, shape: Option<int>) -> BasicContext<T> {
        match shape {
            Some(i) => self.timeline.contexts@[i],
            None => self.timeline.main_context,
        }
    }

    /// Draws the state, `scale` pixels to the scene unit.
    pub fn render(&self, scale: u16, background: Color) -> (canvas: Canvas<Color>)
        requires
            self.wf(),
            self.width * scale <= isize::MAX,
            self.height * scale <= isize::MAX,
            (self.width * scale) * (self.height * scale) <= usize::MAX,
        ensures
            canvas.wf(),
            canvas.width == self.width * scale,
            canvas.height == self.height * scale,
            forall|px: int, py: int|
                0 <= px < canvas.width && 0 <= py < canvas.height ==> #[trigger] canvas.at(px, py) == (Picture {
                    states: self.states_const@,
                    state: self.states_dyn@,
                    target: self.focus(),
                    scale: scale as int,
                    width: canvas.width as int,
                    height: canvas.height as int,
                }).pixel(background, 0, px, py),
    {
        let ctx = RenderingContext {
            states_const: self.states_const.as_slice(),
            target: self.target,
            width: self.width,
            height: self.height,
        };
        render_state(&ctx, &self.states_dyn, scale, background)
    }
}

} // verus!
