//! Compiled mutations of the tri-state attributes.
//!
//! An [`Action`] names one chunk and four masks over it. What a list of actions does to a
//! state is summed up, position by position, in a [`Diff`]: for each attribute the diff
//! either decides the value or leaves it as it was.

use crate::bits::Bits;
use crate::bitvec::in_mask;
use crate::error::Error;
use vstd::prelude::*;

verus! {

/// A three-valued boolean.
#[derive(Clone, Copy, Debug, PartialEq, Eq, Structural)]
pub enum Tri {
    /// True
    T,
    /// False
    F,
    /// Unknown or unchanged
    U,
}

impl Tri {
    /// This value if it decides, else `earlier`.
    pub open spec fn or_else(self, earlier: Tri) -> Tri {
        if self == Tri::U {
            earlier
        } else {
            self
        }
    }

    /// The boolean that results when this value is written over `old`.
    pub open spec fn over(self, old: bool) -> bool {
        match self {
            Tri::T => true,
            Tri::F => false,
            Tri::U => old,
        }
    }

    /// What a pair of mask bits decides; the unset mask is applied last.
    pub open spec fn from_masks(set: bool, unset: bool) -> Tri {
        if unset {
            Tri::F
        } else if set {
            Tri::T
        } else {
            Tri::U
        }
    }
}

/// What happens to each shape's two attributes: decided true, decided false, or untouched.
#[verifier::ext_equal]
pub struct Diff {
    /// Targeted.
    pub t: Seq<Tri>,
    /// Visible.
    pub v: Seq<Tri>,
}

impl Diff {
    /// The diff over `len` shapes that touches nothing.
    pub open spec fn none(len: nat) -> Diff {
        Diff { t: Seq::new(len, |i: int| Tri::U), v: Seq::new(len, |i: int| Tri::U) }
    }

    /// This diff followed by `later`: where `later` decides, it wins.
    pub open spec fn followed_by(self, later: Diff) -> Diff {
        Diff {
            t: Seq::new(self.t.len(), |i: int| later.t[i].or_else(self.t[i])),
            v: Seq::new(self.v.len(), |i: int| later.v[i].or_else(self.v[i])),
        }
    }

    /// The diff that hides the shapes listed in `cleared` and touches nothing else.
    pub open spec fn hiding(cleared: Seq<int>, len: nat) -> Diff {
        Diff {
            t: Seq::new(len, |i: int| Tri::U),
            v: Seq::new(
                len,
                |i: int|
                    if cleared.contains(i) {
                        Tri::F
                    } else {
                        Tri::U
                    },
            ),
        }
    }

    /// Nothing is decided true for a position at or past `n`.
    pub open spec fn quiet_past(self, n: nat) -> bool {
        &&& forall|i: int| n <= i < self.t.len() ==> #[trigger] self.t[i] != Tri::T
        &&& forall|i: int| n <= i < self.v.len() ==> #[trigger] self.v[i] != Tri::T
    }

    /// Both attributes are described for `len` shapes.
    pub open spec fn covers(self, len: nat) -> bool {
        self.t.len() == len && self.v.len() == len
    }
}

/// A compiled mutation of the shapes of one chunk: for each of the two attributes, the
/// shapes that it makes true and the shapes that it makes false.
#[derive(Debug)]
pub struct Action<T: Bits> {
    pub chunk: usize,
    pub set_t: T,
    pub unset_t: T,
    pub set_v: T,
    pub unset_v: T,
}

impl<T: Bits> Clone for Action<T> {
    fn clone(&self) -> (r: Self)
        ensures
            r == *self,
    {
        Action {
            chunk: self.chunk,
            set_t: self.set_t,
            unset_t: self.unset_t,
            set_v: self.set_v,
            unset_v: self.unset_v,
        }
    }
}

impl<T: Bits> Copy for Action<T> {

}

impl<T: Bits> Action<T> {
    /// No shape is both set and unset, for either attribute.
    pub open spec fn wf(self) -> bool {
        forall|n: int|
            0 <= n < T::width() ==> !(self.set_t.bit(n) && self.unset_t.bit(n)) && !(self.set_v.bit(
                n,
            ) && self.unset_v.bit(n))
    }

    /// No mask of the action touches a position at or past `n`: the action is about
    /// shapes only.
    pub open spec fn within(self, n: nat) -> bool {
        forall|b: int|
            0 <= b < T::width() && self.chunk * T::width() + b >= n ==> !#[trigger] self.set_t.bit(b)
                && !self.unset_t.bit(b) && !self.set_v.bit(b) && !self.unset_v.bit(b)
    }

    /// The action touches some shape.
    pub open spec fn decides(self) -> bool {
        exists|n: int|
            0 <= n < T::width() && (#[trigger] self.set_t.bit(n) || self.unset_t.bit(n)
                || self.set_v.bit(n) || self.unset_v.bit(n))
    }

    /// What the action does to `len` shapes.
    pub open spec fn diff(self, len: nat) -> Diff {
        Diff {
            t: Seq::new(
                len,
                |i: int|
                    Tri::from_masks(
                        in_mask(self.set_t, self.chunk as int, i),
                        in_mask(self.unset_t, self.chunk as int, i),
                    ),
            ),
            v: Seq::new(
                len,
                |i: int|
                    Tri::from_masks(
                        in_mask(self.set_v, self.chunk as int, i),
                        in_mask(self.unset_v, self.chunk as int, i),
                    ),
            ),
        }
    }

    /// The action on chunk `chunk` that touches nothing.
    pub fn new(chunk: usize) -> (r: Self)
        ensures
            r.chunk == chunk,
            r.wf(),
            forall|len: nat| #[trigger] r.diff(len) == Diff::none(len),
            forall|n: int|
                0 <= n < T::width() ==> !r.set_t.bit(n) && !r.unset_t.bit(n) && !r.set_v.bit(n)
                    && !r.unset_v.bit(n),
    {
        let r = Action {
            chunk,
            set_t: T::zero(),
            unset_t: T::zero(),
            set_v: T::zero(),
            unset_v: T::zero(),
        };
        proof {
            T::lemma_width_positive();
            assert forall|len: nat| #[trigger] r.diff(len) == Diff::none(len) by {
                let w = T::width() as int;
                assert forall|i: int| 0 <= i < len implies !in_mask(r.set_t, chunk as int, i)
                    && !in_mask(r.unset_t, chunk as int, i) && !in_mask(r.set_v, chunk as int, i)
                    && !in_mask(r.unset_v, chunk as int, i) by {
                    vstd::arithmetic::div_mod::lemma_mod_bound(i, w);
                }
                assert(r.diff(len).t =~= Diff::none(len).t);
                assert(r.diff(len).v =~= Diff::none(len).v);
            }
        }
        r
    }

    /// Whether no mask of the action touches a position at or past `n`.
    pub fn fits(&self, n: usize) -> (r: bool)
        requires
            self.chunk * T::width() + T::width() <= usize::MAX,
        ensures
            r == self.within(n as nat),
    {
        proof {
            T::lemma_width_positive();
        }
        let w = T::size();
        assert(0 <= self.chunk * w <= self.chunk * w + w) by (nonlinear_arith)
            requires
                0 < w,
        ;
        let base = self.chunk * w;
        let touched = self.set_t.or(self.unset_t).or(self.set_v.or(self.unset_v));
        let mut b: usize = 0;
        while b < w
            invariant
                b <= w,
                w == T::width(),
                base == self.chunk * w,
                base + w <= usize::MAX,
                forall|i: int|
                    0 <= i < w ==> #[trigger] touched.bit(i) == (self.set_t.bit(i) || self.unset_t.bit(i)
                        || self.set_v.bit(i) || self.unset_v.bit(i)),
                forall|i: int| 0 <= i < b && base + i >= n ==> !#[trigger] touched.bit(i),
            decreases w - b,
        {
            if base + b >= n && touched.get(b) {
                assert(touched.bit(b as int));
                return false;
            }
            b += 1;
        }
        assert forall|i: int| 0 <= i < T::width() && self.chunk * T::width() + i >= n implies !(
        #[trigger] self.set_t.bit(i)) && !self.unset_t.bit(i) && !self.set_v.bit(i)
            && !self.unset_v.bit(i) by {
            assert(!touched.bit(i));
        }
        true
    }

    /// `Ok` if no shape is both set and unset for the same attribute, `MalformedAction` if
    /// one is.
    pub fn check(&self) -> (r: Result<(), Error>)
        ensures
            self.wf() ==> r.is_ok(),
            !self.wf() ==> r == Err::<(), Error>(Error::MalformedAction),
    {
        let zero = T::zero();
        let both_t = self.set_t.and(self.unset_t);
        let both_v = self.set_v.and(self.unset_v);
        if both_t.same(zero) && both_v.same(zero) {
            assert forall|n: int| 0 <= n < T::width() implies !(self.set_t.bit(n)
                && self.unset_t.bit(n)) && !(self.set_v.bit(n) && self.unset_v.bit(n)) by {
                assert(!both_t.bit(n) && !both_v.bit(n));
            }
            Ok(())
        } else {
            proof {
                if self.wf() {
                    T::lemma_bits_determine(both_t, zero);
                    T::lemma_bits_determine(both_v, zero);
                }
            }
            Err(Error::MalformedAction)
        }
    }
}

/// What a list of actions, applied in order, does to `len` shapes.
pub open spec fn actions_diff<T: Bits>(actions: Seq<Action<T>>, len: nat) -> Diff
    decreases actions.len(),
{
    if actions.len() == 0 {
        Diff::none(len)
    } else {
        actions_diff(actions.drop_last(), len).followed_by(actions.last().diff(len))
    }
}

/// What one click does to `len` shapes: the shapes in `cleared` are found to be hidden,
/// then `actions` are applied in order.
pub open spec fn step_diff<T: Bits>(actions: Seq<Action<T>>, cleared: Seq<int>, len: nat) -> Diff {
    Diff::hiding(cleared, len).followed_by(actions_diff(actions, len))
}

/// Every action of the list is about shapes among the first `n` only.
pub open spec fn actions_within<T: Bits>(actions: Seq<Action<T>>, n: nat) -> bool {
    forall|k: int| 0 <= k < actions.len() ==> (#[trigger] actions[k]).within(n)
}

/// Actions that are about the first `n` shapes only decide nothing past them.
pub proof fn lemma_actions_quiet<T: Bits>(actions: Seq<Action<T>>, n: nat, len: nat)
    requires
        actions_within(actions, n),
    ensures
        actions_diff(actions, len).quiet_past(n),
        forall|i: int| n <= i < len ==> #[trigger] actions_diff(actions, len).t[i] == Tri::U,
        forall|i: int| n <= i < len ==> #[trigger] actions_diff(actions, len).v[i] == Tri::U,
    decreases actions.len(),
{
    T::lemma_width_positive();
    let w = T::width() as int;
    lemma_actions_diff_covers(actions, len);
    if actions.len() > 0 {
        let front = actions.drop_last();
        let last = actions.last();
        assert forall|k: int| 0 <= k < front.len() implies (#[trigger] front[k]).within(n) by {
            assert(front[k] == actions[k]);
        }
        lemma_actions_quiet(front, n, len);
        lemma_actions_diff_covers(front, len);
        assert(last.within(n));
        assert forall|i: int| n <= i < len implies last.diff(len).t[i] == Tri::U && last.diff(len).v[i]
            == Tri::U by {
            vstd::arithmetic::div_mod::lemma_fundamental_div_mod(i, w);
            vstd::arithmetic::div_mod::lemma_mod_bound(i, w);
            if i / w == last.chunk {
                let b = i % w;
                assert(last.chunk * w == w * (i / w)) by (nonlinear_arith)
                    requires
                        i / w == last.chunk,
                ;
                assert(!last.set_t.bit(b));
            }
        }
    }
}

/// The diff of a list of actions describes every shape.
pub proof fn lemma_actions_diff_covers<T: Bits>(actions: Seq<Action<T>>, len: nat)
    ensures
        actions_diff(actions, len).covers(len),
    decreases actions.len(),
{
    if actions.len() > 0 {
        lemma_actions_diff_covers(actions.drop_last(), len);
    }
}

} // verus!
