//! Lowering animations to decisions about the two attributes of a shape.
//!
//! An effect is classified into what it decides about the visibility of its target and
//! about whether the target sits on the focus point. The decisions of the animations of
//! one trigger are folded into actions, one per chunk, the later decision winning.

use crate::action::{
    actions_diff, actions_within, lemma_actions_diff_covers, lemma_actions_quiet, Action, Diff, Tri,
};
use crate::bits::Bits;
use crate::bitvec::{lemma_index_split, BitVec};
use crate::compiler::{lemma_patch_keeps_clear, Context, State, StateView};
use crate::error::Error;
use crate::flatten::{flat_scene, flatten, has_group, holds_group, refs_scene, Flattened};
use crate::scene::{Slide, Timeline};
use crate::flatten::ShapeConstState;
use crate::scene::{Animation, Effect, Preset, Referer};
use crate::scene::Context as Track;
use vstd::prelude::*;

verus! {

/// What an effect decides about its target, which rests at `rest`: first whether it is
/// visible, then whether it sits on the focus point `focus`.
pub open spec fn decision(effect: Effect, rest: (int, int), focus: (int, int)) -> (Tri, Tri) {
    match effect {
        Effect::Appear => (Tri::T, Tri::U),
        Effect::Disappear => (Tri::F, Tri::U),
        Effect::SlideIn { .. } => (
            Tri::T,
            if rest == focus {
                Tri::T
            } else {
                Tri::F
            },
        ),
        Effect::SlideOut { .. } => (Tri::F, Tri::F),
        Effect::Path { x, y, relative } => (
            Tri::U,
            if (if relative {
                (rest.0 + x, rest.1 + y)
            } else {
                (x as int, y as int)
            }) == focus {
                Tri::T
            } else {
                Tri::F
            },
        ),
    }
}

/// What an effect decides about its target, which rests at `rest`: first whether it is
/// visible, then whether it sits on the focus point `focus`.
pub fn classify(effect: &Effect, rest: (i32, i32), focus: (i32, i32)) -> (r: (Tri, Tri))
    ensures
        r == decision(*effect, (rest.0 as int, rest.1 as int), (focus.0 as int, focus.1 as int)),
{
    match effect {
        Effect::Appear => (Tri::T, Tri::U),
        Effect::Disappear => (Tri::F, Tri::U),
        Effect::SlideIn { .. } => {
            if rest.0 == focus.0 && rest.1 == focus.1 {
                (Tri::T, Tri::T)
            } else {
                (Tri::T, Tri::F)
            }
        },
        Effect::SlideOut { .. } => (Tri::F, Tri::F),
        Effect::Path { x, y, relative } => {
            let (dx, dy): (i64, i64) = if *relative {
                (rest.0 as i64 + *x as i64, rest.1 as i64 + *y as i64)
            } else {
                (*x as i64, *y as i64)
            };
            if dx == focus.0 as i64 && dy == focus.1 as i64 {
                (Tri::U, Tri::T)
            } else {
                (Tri::U, Tri::F)
            }
        },
    }
}

impl Diff {
    /// The diff over `len` shapes that decides `v` and `t` for shape `index` and touches
    /// no other shape.
    pub open spec fn at(len: nat, index: int, v: Tri, t: Tri) -> Diff {
        Diff {
            t: Seq::new(
                len,
                |i: int|
                    if i == index {
                        t
                    } else {
                        Tri::U
                    },
            ),
            v: Seq::new(
                len,
                |i: int|
                    if i == index {
                        v
                    } else {
                        Tri::U
                    },
            ),
        }
    }
}

/// The compiled index that an animation aims at: that of the shape that its target
/// became. There is none if the target was never declared or is a group.
pub open spec fn target_of(refs: Seq<Referer>, a: Animation, n: nat) -> Option<int> {
    shape_at(refs, a.target.span_spec().0 as int, n)
}

/// The compiled index of the shape that the entry of authoring index `i` became, if it
/// became one of the `n` shapes.
pub open spec fn shape_at(refs: Seq<Referer>, i: int, n: nat) -> Option<int> {
    if 0 <= i < refs.len() {
        match refs[i] {
            Referer::Shape(index) => if index < n {
                Some(index as int)
            } else {
                None
            },
            Referer::Group(_, _) => None,
        }
    } else {
        None
    }
}

/// Where a flattened shape rests.
pub open spec fn rest_of(state: ShapeConstState) -> (int, int) {
    (state.x as int, state.y as int)
}

/// What one animation decides, over `len` shapes.
pub open spec fn anim_diff(
    refs: Seq<Referer>,
    states: Seq<ShapeConstState>,
    focus: (int, int),
    a: Animation,
    len: nat,
) -> Diff {
    match target_of(refs, a, states.len()) {
        Some(index) => {
            let d = decision(a.effect, rest_of(states[index]), focus);
            Diff::at(len, index, d.0, d.1)
        },
        None => Diff::none(len),
    }
}

/// What a list of animations decides when they play in order, over `len` shapes.
pub open spec fn anims_diff(
    refs: Seq<Referer>,
    states: Seq<ShapeConstState>,
    focus: (int, int),
    anims: Seq<Animation>,
    len: nat,
) -> Diff
    decreases anims.len(),
{
    if anims.len() == 0 {
        Diff::none(len)
    } else {
        anims_diff(refs, states, focus, anims.drop_last(), len).followed_by(
            anim_diff(refs, states, focus, anims.last(), len),
        )
    }
}

/// The chunks of the actions ascend strictly; every action is well formed, lies within
/// `cap` chunks, and touches some shape.
pub open spec fn actions_sorted<T: Bits>(actions: Seq<Action<T>>, cap: nat) -> bool {
    &&& forall|j: int, k: int| 0 <= j < k < actions.len() ==> actions[j].chunk < actions[k].chunk
    &&& forall|k: int|
        0 <= k < actions.len() ==> (#[trigger] actions[k]).wf() && actions[k].chunk < cap
            && actions[k].decides()
}

/// In a list of actions on different chunks, what is decided for a position is what the
/// action on its chunk decides.
pub proof fn lemma_sorted_diff<T: Bits>(actions: Seq<Action<T>>, len: nat, i: int)
    requires
        forall|j: int, k: int| 0 <= j < k < actions.len() ==> actions[j].chunk < actions[k].chunk,
        0 <= i < len,
    ensures
        forall|k: int|
            0 <= k < actions.len() && (#[trigger] actions[k]).chunk == i / (T::width() as int)
                ==> actions_diff(actions, len).t[i] == actions[k].diff(len).t[i] && actions_diff(
                actions,
                len,
            ).v[i] == actions[k].diff(len).v[i],
        (forall|k: int| 0 <= k < actions.len() ==> (#[trigger] actions[k]).chunk != i / (
        T::width() as int)) ==> actions_diff(actions, len).t[i] == Tri::U && actions_diff(
            actions,
            len,
        ).v[i] == Tri::U,
    decreases actions.len(),
{
    if actions.len() > 0 {
        let front = actions.drop_last();
        let last = actions.last();
        assert forall|j: int, k: int| 0 <= j < k < front.len() implies front[j].chunk
            < front[k].chunk by {
            assert(front[j] == actions[j] && front[k] == actions[k]);
        }
        lemma_sorted_diff(front, len, i);
        lemma_actions_diff_covers(front, len);
        let c = i / (T::width() as int);
        assert forall|k: int| 0 <= k < front.len() implies (#[trigger] front[k]).chunk
            != last.chunk by {
            assert(front[k] == actions[k]);
            assert(actions[k].chunk < actions[actions.len() - 1].chunk);
        }
        if last.chunk == c {
            assert forall|k: int| 0 <= k < actions.len() && (#[trigger] actions[k]).chunk
                == c implies k == actions.len() - 1 by {
                if k < actions.len() - 1 {
                    assert(actions[k].chunk < actions[actions.len() - 1].chunk);
                }
            }
        } else {
            assert forall|k: int| 0 <= k < actions.len() && (#[trigger] actions[k]).chunk
                == c implies actions_diff(actions, len).t[i] == actions[k].diff(len).t[i]
                && actions_diff(actions, len).v[i] == actions[k].diff(len).v[i] by {
                assert(front[k] == actions[k]);
            }
            if forall|k: int| 0 <= k < actions.len() ==> (#[trigger] actions[k]).chunk != c {
                assert forall|k: int| 0 <= k < front.len() implies (#[trigger] front[k]).chunk != c by {
                    assert(front[k] == actions[k]);
                }
            }
        }
    }
}

/// Whether the diff `d` decides something for a shape of chunk `c`.
pub open spec fn touches_chunk<T: Bits>(d: Diff, c: int) -> bool {
    exists|i: int|
        0 <= i < d.t.len() && #[trigger] (i / (T::width() as int)) == c && (d.t[i] != Tri::U || d.v[i]
            != Tri::U)
}

/// A sorted list of actions has an action on a chunk exactly where what it decides
/// touches a shape of that chunk: the list is settled by what it decides.
pub proof fn lemma_sorted_chunks<T: Bits>(actions: Seq<Action<T>>, cap: nat, c: int)
    requires
        actions_sorted(actions, cap),
    ensures
        (exists|k: int| 0 <= k < actions.len() && (#[trigger] actions[k]).chunk == c) <==> touches_chunk::<
            T,
        >(actions_diff(actions, cap * T::width()), c),
{
    T::lemma_width_positive();
    let w = T::width() as int;
    let len = cap * T::width();
    let d = actions_diff(actions, len);
    lemma_actions_diff_covers(actions, len);
    if exists|k: int| 0 <= k < actions.len() && (#[trigger] actions[k]).chunk == c {
        let k = choose|k: int| 0 <= k < actions.len() && (#[trigger] actions[k]).chunk == c;
        let a = actions[k];
        assert(a.decides());
        let n = choose|n: int|
            0 <= n < T::width() && (#[trigger] a.set_t.bit(n) || a.unset_t.bit(n) || a.set_v.bit(n)
                || a.unset_v.bit(n));
        let i = c * w + n;
        crate::bitvec::lemma_index_join(c, n, w, cap as int);
        lemma_sorted_diff(actions, len, i);
        assert(a.wf());
        assert(i / w == c);
        assert(d.t[i] != Tri::U || d.v[i] != Tri::U);
    }
    if touches_chunk::<T>(d, c) {
        let i = choose|i: int|
            0 <= i < d.t.len() && #[trigger] (i / w) == c && (d.t[i] != Tri::U || d.v[i] != Tri::U);
        lemma_sorted_diff(actions, len, i);
    }
}

/// Writes the decision `d` for bit `b` into a pair of masks; the other bits stay.
fn decide_bit<T: Bits>(set: &mut T, unset: &mut T, b: usize, d: Tri)
    requires
        b < T::width(),
    ensures
        forall|n: int|
            0 <= n < T::width() ==> #[trigger] final(set).bit(n) == (if n == b && d != Tri::U {
                d == Tri::T
            } else {
                old(set).bit(n)
            }) && final(unset).bit(n) == (if n == b && d != Tri::U {
                d == Tri::F
            } else {
                old(unset).bit(n)
            }),
{
    match d {
        Tri::T => {
            set.set(b);
            unset.unset(b);
        },
        Tri::F => {
            set.unset(b);
            unset.set(b);
        },
        Tri::U => {},
    }
}

/// Adds to a list of actions the decision `v`, `t` for shape `index`, over what the list
/// decided for that shape before. The list stays sorted by chunk, one action to a chunk.
pub fn fold_decision<T: Bits>(actions: &mut Vec<Action<T>>, index: usize, v: Tri, t: Tri, cap: usize)
    requires
        actions_sorted(old(actions)@, cap as nat),
        index < cap * T::width(),
        v != Tri::U || t != Tri::U,
    ensures
        actions_sorted(final(actions)@, cap as nat),
        actions_diff(final(actions)@, cap as nat * T::width()) == actions_diff(
            old(actions)@,
            cap as nat * T::width(),
        ).followed_by(Diff::at(cap as nat * T::width(), index as int, v, t)),
        forall|n: nat|
            index < n && #[trigger] actions_within(old(actions)@, n) ==> actions_within(
                final(actions)@,
                n,
            ),
{
    proof {
        T::lemma_width_positive();
        lemma_index_split(index as int, T::width() as int, cap as int);
    }
    let w = T::size();
    let c = index / w;
    let b = index % w;
    let mut p: usize = 0;
    while p < actions.len() && actions[p].chunk < c
        invariant
            p <= actions@.len(),
            actions@ == old(actions)@,
            forall|k: int| 0 <= k < p ==> (#[trigger] actions@[k]).chunk < c,
        decreases actions@.len() - p,
    {
        p += 1;
    }
    let ghost before = actions@;
    let found = p < actions.len() && actions[p].chunk == c;
    let mut action = if found {
        actions[p]
    } else {
        Action::new(c)
    };
    let ghost prior = action;
    decide_bit(&mut action.set_v, &mut action.unset_v, b, v);
    decide_bit(&mut action.set_t, &mut action.unset_t, b, t);
    if found {
        actions.set(p, action);
    } else {
        actions.insert(p, action);
    }
    proof {
        let len = cap as nat * T::width();
        let wi = w as int;
        let after = actions@;
        assert(action.chunk == c);
        assert(action.wf());
        assert(action.decides()) by {
            if v != Tri::U {
                assert(action.set_v.bit(b as int) || action.unset_v.bit(b as int));
            } else {
                assert(action.set_t.bit(b as int) || action.unset_t.bit(b as int));
            }
        }
        assert forall|j: int, k: int| 0 <= j < k < after.len() implies after[j].chunk
            < after[k].chunk by {
            if found {
                assert(after[j].chunk == before[j].chunk && after[k].chunk == before[k].chunk);
            } else {
                let bj = if j < p {
                    j
                } else {
                    j - 1
                };
                let bk = if k < p {
                    k
                } else {
                    k - 1
                };
                if j != p && k != p {
                    assert(after[j] == before[bj] && after[k] == before[bk]);
                } else if j == p {
                    assert(after[k] == before[bk]);
                    if bk > p {
                        assert(before[p as int].chunk < before[bk].chunk);
                    }
                } else {
                    assert(after[j] == before[bj]);
                }
            }
        }
        assert forall|k: int| 0 <= k < after.len() implies (#[trigger] after[k]).wf()
            && after[k].chunk < cap && after[k].decides() by {
            if found {
                if k != p {
                    assert(after[k] == before[k]);
                }
            } else {
                if k < p {
                    assert(after[k] == before[k]);
                } else if k > p {
                    assert(after[k] == before[k - 1]);
                }
            }
        }
        lemma_actions_diff_covers(before, len);
        lemma_actions_diff_covers(after, len);
        let goal = actions_diff(before, len).followed_by(Diff::at(len, index as int, v, t));
        assert forall|i: int| 0 <= i < len implies actions_diff(after, len).t[i] == goal.t[i]
            && actions_diff(after, len).v[i] == goal.v[i] by {
            lemma_sorted_diff(before, len, i);
            lemma_sorted_diff(after, len, i);
            lemma_index_split(i, wi, cap as int);
            if i / wi == c {
                assert(after[p as int].chunk == c);
                if found {
                    assert(before[p as int].chunk == c);
                } else {
                    assert forall|k: int| 0 <= k < before.len() implies (#[trigger] before[k]).chunk
                        != c by {
                        if k >= p {
                            if k > p {
                                assert(before[p as int].chunk < before[k].chunk);
                            }
                        }
                    }
                    assert(prior.diff(len).t[i] == Tri::U && prior.diff(len).v[i] == Tri::U);
                }
                if i != index {
                    assert(i % wi != b) by {
                        lemma_index_split(index as int, wi, cap as int);
                    }
                }
            } else {
                if exists|k: int| 0 <= k < before.len() && (#[trigger] before[k]).chunk == i / wi {
                    let k = choose|k: int| 0 <= k < before.len() && (#[trigger] before[k]).chunk == i / wi;
                    let ak = if found || k < p {
                        k
                    } else {
                        k + 1
                    };
                    assert(after[ak] == before[k]);
                } else {
                    assert forall|k: int| 0 <= k < after.len() implies (#[trigger] after[k]).chunk != i
                        / wi by {
                        if found {
                            if k != p {
                                assert(after[k] == before[k]);
                            }
                        } else {
                            if k < p {
                                assert(after[k] == before[k]);
                            } else if k > p {
                                assert(after[k] == before[k - 1]);
                            }
                        }
                    }
                }
            }
        }
        assert(actions_diff(after, len).t =~= goal.t);
        assert(actions_diff(after, len).v =~= goal.v);
        assert forall|n: nat| index < n && #[trigger] actions_within(before, n) implies actions_within(
            after,
            n,
        ) by {
            if found {
                assert(prior == before[p as int]);
            }
            assert(prior.within(n));
            vstd::arithmetic::div_mod::lemma_fundamental_div_mod(index as int, wi);
            vstd::arithmetic::mul::lemma_mul_is_commutative(wi, c as int);
            assert(action.within(n));
            assert forall|k: int| 0 <= k < after.len() implies (#[trigger] after[k]).within(n) by {
                if found {
                    if k != p {
                        assert(after[k] == before[k]);
                    }
                } else {
                    if k < p {
                        assert(after[k] == before[k]);
                    } else if k > p {
                        assert(after[k] == before[k - 1]);
                    }
                }
            }
        }
    }
}

/// Why an animation cannot be lowered, if it cannot: a click boundary in the global
/// context, a target that is no shape, or a slide-out that stops half way.
pub open spec fn anim_fault(refs: Seq<Referer>, a: Animation, global: bool, n: nat) -> Option<Error> {
    if global && a.click {
        Some(Error::UnsupportedAnimation)
    } else if target_of(refs, a, n) is None {
        Some(Error::UnsupportedTarget)
    } else if a.effect matches Effect::SlideOut { complete: false, .. } {
        Some(Error::UnsupportedAnimation)
    } else {
        None
    }
}

/// The fault of the first animation from position `k` on that has one.
pub open spec fn first_fault(
    refs: Seq<Referer>,
    anims: Seq<Animation>,
    global: bool,
    n: nat,
    k: int,
) -> Option<Error>
    decreases anims.len() - k,
{
    if k < 0 || k >= anims.len() {
        None
    } else {
        match anim_fault(refs, anims[k], global, n) {
            Some(e) => Some(e),
            None => first_fault(refs, anims, global, n, k + 1),
        }
    }
}

/// What is assumed of a shape before its first animation: hidden if the animation brings
/// it on stage, visible else.
pub open spec fn seed_rule(effect: Effect) -> Tri {
    if effect.preset_spec().is_entrance() {
        Tri::F
    } else {
        Tri::T
    }
}

/// What is assumed of a shape before its first animation, which has this effect.
pub fn assumed_before(effect: &Effect) -> (r: Tri)
    ensures
        r == seed_rule(*effect),
{
    match effect.preset() {
        Preset::Entr(_, _) => Tri::F,
        _ => Tri::T,
    }
}

/// The assumed visibilities `seed` after the animations `anims` were looked at in
/// order: a shape that was still unknown when an animation named it has got what
/// [`seed_rule`] gives.
pub open spec fn seeded(refs: Seq<Referer>, anims: Seq<Animation>, seed: Seq<Tri>) -> Seq<Tri>
    decreases anims.len(),
{
    if anims.len() == 0 {
        seed
    } else {
        let so_far = seeded(refs, anims.drop_last(), seed);
        match target_of(refs, anims.last(), seed.len()) {
            Some(index) => if so_far[index] == Tri::U {
                so_far.update(index, seed_rule(anims.last().effect))
            } else {
                so_far
            },
            None => so_far,
        }
    }
}

/// The assumed visibilities keep their number.
pub proof fn lemma_seeded_len(refs: Seq<Referer>, anims: Seq<Animation>, seed: Seq<Tri>)
    ensures
        seeded(refs, anims, seed).len() == seed.len(),
    decreases anims.len(),
{
    if anims.len() > 0 {
        lemma_seeded_len(refs, anims.drop_last(), seed);
    }
}

/// The compiled index of the shape that the entry of authoring index `i` became.
pub fn resolve(refs: &Vec<Referer>, i: usize, n: usize) -> (r: Option<usize>)
    ensures
        match r {
            Some(index) => shape_at(refs@, i as int, n as nat) == Some(index as int) && index < n,
            None => shape_at(refs@, i as int, n as nat) is None,
        },
{
    if i < refs.len() {
        match refs[i] {
            Referer::Shape(index) => if index < n {
                Some(index)
            } else {
                None
            },
            Referer::Group(_, _) => None,
        }
    } else {
        None
    }
}

/// The compiled index that an animation aims at, or why the animation cannot be lowered.
pub fn check_animation(refs: &Vec<Referer>, a: &Animation, global: bool, n: usize) -> (r: Result<
    usize,
    Error,
>)
    ensures
        match r {
            Ok(index) => anim_fault(refs@, *a, global, n as nat) is None && target_of(
                refs@,
                *a,
                n as nat,
            ) == Some(index as int) && index < n,
            Err(e) => anim_fault(refs@, *a, global, n as nat) == Some(e),
        },
{
    if global && a.click {
        return Err(Error::UnsupportedAnimation);
    }
    match resolve(refs, a.target.index(), n) {
        None => Err(Error::UnsupportedTarget),
        Some(index) => {
            match a.effect {
                Effect::SlideOut { complete, .. } => {
                    if !complete {
                        return Err(Error::UnsupportedAnimation);
                    }
                },
                _ => {},
            }
            Ok(index)
        },
    }
}

/// Gives every shape that the animations name, and that was still unknown, its assumed
/// visibility.
pub fn seed_track(refs: &Vec<Referer>, anims: &Vec<Animation>, seed: &mut Vec<Tri>)
    ensures
        final(seed)@ == seeded(refs@, anims@, old(seed)@),
        final(seed)@.len() == old(seed)@.len(),
{
    let n = seed.len();
    let mut k: usize = 0;
    proof {
        assert(anims@.take(0) =~= Seq::<Animation>::empty());
    }
    while k < anims.len()
        invariant
            k <= anims@.len(),
            seed@.len() == n,
            n == old(seed)@.len(),
            seed@ == seeded(refs@, anims@.take(k as int), old(seed)@),
        decreases anims@.len() - k,
    {
        let a = anims[k];
        match resolve(refs, a.target.index(), n) {
            Some(index) => {
                match seed[index] {
                    Tri::U => {
                        seed.set(index, assumed_before(&a.effect));
                    },
                    _ => {},
                }
            },
            None => {},
        }
        proof {
            assert(anims@.take(k + 1).drop_last() =~= anims@.take(k as int));
            assert(anims@.take(k + 1).last() == a);
        }
        k += 1;
    }
    proof {
        assert(anims@.take(k as int) =~= anims@);
    }
}

/// Lowers the animations of one trigger: folds what they decide into actions, and gives
/// every shape that they name, and that was still unknown, its assumed visibility.
pub fn lower_track<T: Bits>(
    refs: &Vec<Referer>,
    states: &Vec<ShapeConstState>,
    focus: (i32, i32),
    anims: &Vec<Animation>,
    global: bool,
    seed: &mut Vec<Tri>,
    cap: usize,
) -> (r: Result<Vec<Action<T>>, Error>)
    requires
        old(seed)@.len() == states@.len(),
        states@.len() <= cap * T::width(),
    ensures
        final(seed)@.len() == states@.len(),
        match r {
            Ok(actions) => {
                &&& first_fault(refs@, anims@, global, states@.len(), 0) is None
                &&& actions_sorted(actions@, cap as nat)
                &&& actions_within(actions@, states@.len())
                &&& actions_diff(actions@, cap as nat * T::width()) == anims_diff(
                    refs@,
                    states@,
                    (focus.0 as int, focus.1 as int),
                    anims@,
                    cap as nat * T::width(),
                )
                &&& final(seed)@ == seeded(refs@, anims@, old(seed)@)
            },
            Err(e) => first_fault(refs@, anims@, global, states@.len(), 0) == Some(e),
        },
{
    let ghost len = cap as nat * T::width();
    let ghost n = states@.len();
    let ghost at = (focus.0 as int, focus.1 as int);
    let mut actions: Vec<Action<T>> = Vec::new();
    let mut k: usize = 0;
    proof {
        assert(anims@.take(0) =~= Seq::<Animation>::empty());
    }
    while k < anims.len()
        invariant
            k <= anims@.len(),
            n == states@.len(),
            n <= cap * T::width(),
            len == cap as nat * T::width(),
            at == (focus.0 as int, focus.1 as int),
            seed@.len() == n,
            old(seed)@.len() == n,
            first_fault(refs@, anims@, global, n, 0) == first_fault(refs@, anims@, global, n, k as int),
            actions_sorted(actions@, cap as nat),
            actions_within(actions@, n),
            actions_diff(actions@, len) == anims_diff(refs@, states@, at, anims@.take(k as int), len),
            seed@ == seeded(refs@, anims@.take(k as int), old(seed)@),
        decreases anims@.len() - k,
    {
        let a = anims[k];
        let index = match check_animation(refs, &a, global, states.len()) {
            Ok(index) => index,
            Err(e) => {
                return Err(e);
            },
        };
        let ghost before = seed@;
        match seed[index] {
            Tri::U => {
                seed.set(index, assumed_before(&a.effect));
            },
            _ => {},
        }
        let rest = (states[index].x, states[index].y);
        let (v, t) = classify(&a.effect, rest, focus);
        fold_decision(&mut actions, index, v, t, cap);
        proof {
            assert(anims@.take(k + 1).drop_last() =~= anims@.take(k as int));
            assert(anims@.take(k + 1).last() == a);
        }
        k += 1;
    }
    proof {
        assert(anims@.take(k as int) =~= anims@);
    }
    Ok(actions)
}

/// Why the animations that clicks on the entry of authoring index `id` play cannot be
/// lowered, if they cannot: the entry is no shape, or one of the animations has a fault.
pub open spec fn track_fault(refs: Seq<Referer>, n: nat, id: int, anims: Seq<Animation>) -> Option<
    Error,
> {
    if anims.len() == 0 {
        None
    } else if shape_at(refs, id, n) is None {
        Some(Error::UnsupportedTarget)
    } else {
        first_fault(refs, anims, false, n, 0)
    }
}

/// The fault of the first context from position `k` on that has one.
pub open spec fn tracks_fault(refs: Seq<Referer>, n: nat, tracks: Seq<Track>, k: int) -> Option<Error>
    decreases tracks.len() - k,
{
    if k < 0 || k >= tracks.len() {
        None
    } else {
        match track_fault(refs, n, k, tracks[k].animations@) {
            Some(e) => Some(e),
            None => tracks_fault(refs, n, tracks, k + 1),
        }
    }
}

/// The first fault of a timeline: that of the global context, else that of the first
/// context that has one.
pub open spec fn timeline_fault(refs: Seq<Referer>, n: nat, timeline: Timeline) -> Option<Error> {
    match first_fault(refs, timeline.main_context.animations@, true, n, 0) {
        Some(e) => Some(e),
        None => tracks_fault(refs, n, timeline.contexts@, 0),
    }
}

/// Why a scene cannot be lowered for chunks of `width` bits, if it cannot: an entry is a
/// group, an entry does not carry its index, the shapes are too many, or the timeline has
/// a fault. A scene that holds a group is refused whatever else it holds.
pub open spec fn lower_fault(slide: Slide, width: nat) -> Option<Error> {
    if holds_group(slide.shapes@) {
        Some(Error::UnsupportedTarget)
    } else if !slide.wf() {
        Some(Error::IndexOutOfRange)
    } else if flat_scene(slide.shapes@).len() + width > u32::MAX {
        Some(Error::CapacityExceeded)
    } else {
        timeline_fault(refs_scene(slide.shapes@), flat_scene(slide.shapes@).len(), slide.timeline)
    }
}

/// A scene with a group among its entries is refused with `UnsupportedTarget`, whatever
/// the width of the chunks, the rest of the scene and its timeline.
pub proof fn lemma_group_refused(slide: Slide, width: nat, i: int)
    requires
        0 <= i < slide.shapes@.len(),
        slide.shapes@[i].1 is Group,
    ensures
        lower_fault(slide, width) == Some(Error::UnsupportedTarget),
{
}

/// The assumed visibilities after the first `k` contexts were looked at.
pub open spec fn seeded_tracks(refs: Seq<Referer>, tracks: Seq<Track>, k: nat, seed: Seq<Tri>) -> Seq<
    Tri,
>
    decreases k,
{
    if k == 0 || k > tracks.len() {
        seed
    } else {
        seeded(refs, tracks[k - 1].animations@, seeded_tracks(refs, tracks, (k - 1) as nat, seed))
    }
}

/// What is assumed of the visibility of each of the `n` shapes before anything plays:
/// the first animation that names a shape, in the global context and then in the others
/// in order, settles it by [`seed_rule`]; a shape that no animation names stays unknown.
pub open spec fn seed_of(refs: Seq<Referer>, timeline: Timeline, n: nat) -> Seq<Tri> {
    seeded_tracks(
        refs,
        timeline.contexts@,
        timeline.contexts@.len(),
        seeded(refs, timeline.main_context.animations@, Seq::new(n, |i: int| Tri::U)),
    )
}

/// The state before anything plays, over `len` positions: a shape is targeted if it
/// rests on the focus point, visible unless it is assumed hidden and not marked unknown,
/// and unknown if it is marked so.
pub open spec fn base_view(
    states: Seq<ShapeConstState>,
    seed: Seq<Tri>,
    focus: (int, int),
    len: nat,
) -> StateView {
    StateView {
        t: Seq::new(len, |i: int| i < states.len() && rest_of(states[i]) == focus),
        v: Seq::new(len, |i: int| i < states.len() && (seed[i] != Tri::F || states[i].unknown)),
        u: Seq::new(len, |i: int| i < states.len() && states[i].unknown),
    }
}

/// For each shape, what a click on it decides, once the first `k` contexts were lowered.
pub open spec fn track_diffs(
    refs: Seq<Referer>,
    states: Seq<ShapeConstState>,
    focus: (int, int),
    tracks: Seq<Track>,
    k: nat,
    len: nat,
) -> Seq<Diff>
    decreases k,
{
    if k == 0 || k > tracks.len() {
        Seq::new(states.len(), |s: int| Diff::none(len))
    } else {
        let before = track_diffs(refs, states, focus, tracks, (k - 1) as nat, len);
        let anims = tracks[k - 1].animations@;
        match shape_at(refs, k - 1, states.len()) {
            Some(s) => if anims.len() > 0 {
                before.update(s, anims_diff(refs, states, focus, anims, len))
            } else {
                before
            },
            None => before,
        }
    }
}

/// There is one diff for each shape.
pub proof fn lemma_track_diffs_len(
    refs: Seq<Referer>,
    states: Seq<ShapeConstState>,
    focus: (int, int),
    tracks: Seq<Track>,
    k: nat,
    len: nat,
)
    ensures
        track_diffs(refs, states, focus, tracks, k, len).len() == states.len(),
    decreases k,
{
    if !(k == 0 || k > tracks.len()) {
        lemma_track_diffs_len(refs, states, focus, tracks, (k - 1) as nat, len);
    }
}

/// Whether `context` and `states_const` are what lowering `slide` with the focus point
/// `focus` gives: the rectangles of the flattened scene; as root the state before anything
/// plays with the animations of the global context played on it; and for each shape the
/// actions, one to a chunk, that decide what the animations of its context decide.
pub open spec fn lowers<T: Bits>(
    slide: Slide,
    focus: (int, int),
    context: &Context<T>,
    states_const: Seq<ShapeConstState>,
) -> bool {
    let refs = refs_scene(slide.shapes@);
    let states = flat_scene(slide.shapes@);
    let len = context.bits();
    let seed = seed_of(refs, slide.timeline, states.len());
    &&& states_const == states
    &&& context.wf()
    &&& context.n == states.len()
    &&& context.u@ == base_view(states, seed, focus, len).u
    &&& context.root@ == base_view(states, seed, focus, len).patched(
        anims_diff(refs, states, focus, slide.timeline.main_context.animations@, len),
    )
    &&& forall|s: int|
        0 <= s < states.len() ==> actions_sorted((#[trigger] context.actions@[s])@, context.cap as nat)
            && actions_diff(context.actions@[s]@, len) == track_diffs(
            refs,
            states,
            focus,
            slide.timeline.contexts@,
            slide.timeline.contexts@.len(),
            len,
        )[s]
}

/// A scene lowered for the graph compiler.
#[derive(Debug)]
pub struct Lowered<T: Bits> {
    /// What a click on each shape does, and the state before any click.
    pub context: Context<T>,
    /// For each authoring index, the handle of the entry.
    pub refs: Vec<Referer>,
    /// The rectangles, by compiled index.
    pub states_const: Vec<ShapeConstState>,
    /// What was assumed of the visibility of each shape before anything played.
    pub seed: Vec<Tri>,
}

/// The state before anything plays.
pub fn base_state<T: Bits>(
    states: &Vec<ShapeConstState>,
    seed: &Vec<Tri>,
    focus: (i32, i32),
    cap: usize,
) -> (r: State<T>)
    requires
        seed@.len() == states@.len(),
        states@.len() <= cap * T::width(),
    ensures
        r.has_cap(cap as nat),
        r@ == base_view(states@, seed@, (focus.0 as int, focus.1 as int), cap as nat * T::width()),
{
    let mut state: State<T> = State::new(cap);
    let ghost len = cap as nat * T::width();
    let ghost at = (focus.0 as int, focus.1 as int);
    let n = states.len();
    let mut i: usize = 0;
    while i < n
        invariant
            i <= n,
            n == states@.len(),
            n == seed@.len(),
            n <= cap * T::width(),
            len == cap as nat * T::width(),
            at == (focus.0 as int, focus.1 as int),
            state.has_cap(cap as nat),
            state@.t == Seq::new(len, |j: int| j < i && rest_of(states@[j]) == at),
            state@.v == Seq::new(len, |j: int| j < i && (seed@[j] != Tri::F || states@[j].unknown)),
            state@.u == Seq::new(len, |j: int| j < i && states@[j].unknown),
        decreases n - i,
    {
        let shape = states[i];
        if shape.x == focus.0 && shape.y == focus.1 {
            state.t.set(i);
        }
        let hidden = match seed[i] {
            Tri::F => true,
            _ => false,
        };
        if !hidden || shape.unknown {
            state.v.set(i);
        }
        if shape.unknown {
            state.u.set(i);
        }
        proof {
            assert(state@.t =~= Seq::new(len, |j: int| j < i + 1 && rest_of(states@[j]) == at));
            assert(state@.v =~= Seq::new(
                len,
                |j: int| j < i + 1 && (seed@[j] != Tri::F || states@[j].unknown),
            ));
            assert(state@.u =~= Seq::new(len, |j: int| j < i + 1 && states@[j].unknown));
        }
        i += 1;
    }
    proof {
        let goal = base_view(states@, seed@, at, len);
        assert(state@.t =~= goal.t);
        assert(state@.v =~= goal.v);
        assert(state@.u =~= goal.u);
    }
    state
}

/// Lowers a scene for the graph compiler, with `focus` as the focus point.
///
/// The scene is flattened; the visibility of every shape before anything plays is
/// settled; the animations of the global context are played on that state, which gives
/// the root; and the animations that clicks on each shape play are folded into its
/// actions. A scene that holds a group is refused with `UnsupportedTarget`; the other
/// faults are those of [`lower_fault`].
pub fn lower<T: Bits>(slide: &Slide, focus: (i32, i32)) -> (r: Result<Lowered<T>, Error>)
    ensures
        match r {
            Ok(l) => {
                &&& lower_fault(*slide, T::width()) is None
                &&& l.refs@ == refs_scene(slide.shapes@)
                &&& l.seed@ == seed_of(
                    refs_scene(slide.shapes@),
                    slide.timeline,
                    flat_scene(slide.shapes@).len(),
                )
                &&& lowers(*slide, (focus.0 as int, focus.1 as int), &l.context, l.states_const@)
            },
            Err(e) => lower_fault(*slide, T::width()) == Some(e),
        },
{
    if has_group(&slide.shapes) {
        return Err(Error::UnsupportedTarget);
    }
    let flat = match flatten(&slide.shapes) {
        Ok(flat) => flat,
        Err(e) => {
            return Err(e);
        },
    };
    let Flattened { refs, states } = flat;
    proof {
        T::lemma_width_positive();
    }
    let n = states.len();
    let w = T::size();
    if n > (u32::MAX as usize) - w {
        return Err(Error::CapacityExceeded);
    }
    let mut ctx: Context<T> = Context::new(n);
    let cap = ctx.cap;
    let ghost len = ctx.bits();
    let ghost at = (focus.0 as int, focus.1 as int);
    let mut seed: Vec<Tri> = Vec::new();
    let mut i: usize = 0;
    while i < n
        invariant
            i <= n,
            seed@ == Seq::new(i as nat, |j: int| Tri::U),
        decreases n - i,
    {
        seed.push(Tri::U);
        assert(seed@ =~= Seq::new((i + 1) as nat, |j: int| Tri::U));
        i += 1;
    }
    let global: Vec<Action<T>> = match lower_track(
        &refs,
        &states,
        focus,
        &slide.timeline.main_context.animations,
        true,
        &mut seed,
        cap,
    ) {
        Ok(actions) => actions,
        Err(e) => {
            return Err(e);
        },
    };
    let tracks = &slide.timeline.contexts;
    let mut id: usize = 0;
    while id < tracks.len()
        invariant
            id <= tracks@.len(),
            tracks@ == slide.timeline.contexts@,
            n == states@.len(),
            !holds_group(slide.shapes@),
            slide.wf(),
            refs@ == refs_scene(slide.shapes@),
            states@ == flat_scene(slide.shapes@),
            n + T::width() <= u32::MAX,
            first_fault(refs@, slide.timeline.main_context.animations@, true, n as nat, 0) is None,
            ctx.wf(),
            ctx.n == n,
            ctx.cap == cap,
            len == ctx.bits(),
            at == (focus.0 as int, focus.1 as int),
            seed@.len() == n,
            ctx.root.has_cap(cap as nat),
            tracks_fault(refs@, n as nat, tracks@, 0) == tracks_fault(refs@, n as nat, tracks@, id as int),
            seed@ == seeded_tracks(
                refs@,
                tracks@,
                id as nat,
                seeded(
                    refs@,
                    slide.timeline.main_context.animations@,
                    Seq::new(n as nat, |j: int| Tri::U),
                ),
            ),
            forall|s: int|
                0 <= s < n ==> actions_sorted((#[trigger] ctx.actions@[s])@, cap as nat) && actions_diff(
                    ctx.actions@[s]@,
                    len,
                ) == track_diffs(refs@, states@, at, tracks@, id as nat, len)[s],
        decreases tracks@.len() - id,
    {
        let anims = &tracks[id].animations;
        proof {
            lemma_track_diffs_len(refs@, states@, at, tracks@, id as nat, len);
            lemma_track_diffs_len(refs@, states@, at, tracks@, (id + 1) as nat, len);
        }
        if anims.len() > 0 {
            let trigger = match resolve(&refs, id, n) {
                Some(trigger) => trigger,
                None => {
                    return Err(Error::UnsupportedTarget);
                },
            };
            let actions: Vec<Action<T>> = match lower_track(
                &refs,
                &states,
                focus,
                anims,
                false,
                &mut seed,
                cap,
            ) {
                Ok(actions) => actions,
                Err(e) => {
                    return Err(e);
                },
            };
            ctx.actions.set(trigger, actions);
        } else {
            proof {
                reveal_with_fuel(seeded, 1);
            }
        }
        id += 1;
    }
    proof {
        lemma_track_diffs_len(refs@, states@, at, tracks@, tracks@.len(), len);
    }
    let mut root: State<T> = base_state(&states, &seed, focus, cap);
    let mut unknown: BitVec<T> = root.u.clone();
    proof {
        lemma_actions_quiet(global@, n as nat, len);
        lemma_actions_diff_covers(global@, len);
        lemma_patch_keeps_clear(root@, actions_diff(global@, len), n as nat);
    }
    root.apply_all(&global);
    ctx.root = root;
    ctx.u = unknown;
    Ok(Lowered { context: ctx, refs, states_const: states, seed })
}

} // verus!
