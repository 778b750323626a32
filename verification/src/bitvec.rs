//! Packed booleans over chunks of a configurable width.

use crate::bits::Bits;
use crate::error::Error;
use vstd::prelude::*;

verus! {

/// A position below `n * w` splits into a chunk below `n` and a bit below `w`.
pub proof fn lemma_index_split(i: int, w: int, n: int)
    requires
        0 < w,
        0 <= i < n * w,
    ensures
        0 <= i / w < n,
        0 <= i % w < w,
        i == (i / w) * w + i % w,
{
    vstd::arithmetic::div_mod::lemma_fundamental_div_mod(i, w);
    vstd::arithmetic::div_mod::lemma_mod_bound(i, w);
    assert(0 <= i / w < n) by (nonlinear_arith)
        requires
            0 < w,
            0 <= i < n * w,
            i == w * (i / w) + i % w,
            0 <= i % w < w,
    ;
    assert(w * (i / w) == (i / w) * w) by (nonlinear_arith);
}

/// Chunk `c` and bit `b` join into the position `c * w + b`, and split back into themselves.
pub proof fn lemma_index_join(c: int, b: int, w: int, n: int)
    requires
        0 < w,
        0 <= c < n,
        0 <= b < w,
    ensures
        0 <= c * w + b < n * w,
        (c * w + b) / w == c,
        (c * w + b) % w == b,
{
    vstd::arithmetic::div_mod::lemma_fundamental_div_mod_converse(c * w + b, w, c, b);
    assert(0 <= c * w + b < n * w) by (nonlinear_arith)
        requires
            0 < w,
            0 <= c < n,
            0 <= b < w,
    ;
}

/// A position between `k * w` and `(k + 1) * w` lies in chunk `k`.
pub proof fn lemma_index_in_chunk(i: int, w: int, k: int)
    requires
        0 < w,
        0 <= k,
        k * w <= i < k * w + w,
    ensures
        i / w == k,
        i % w == i - k * w,
{
    vstd::arithmetic::div_mod::lemma_fundamental_div_mod_converse(i, w, k, i - k * w);
}

/// Whether position `i` lies in chunk `chunk` and `mask` has its bit.
pub open spec fn in_mask<T: Bits>(mask: T, chunk: int, i: int) -> bool {
    i / (T::width() as int) == chunk && mask.bit(i % (T::width() as int))
}

/// A sequence of booleans stored `T::width()` to a chunk.
#[derive(Debug, PartialEq, Eq, Hash)]
pub struct BitVec<T: Bits> {
    pub chunks: Vec<T>,
}

impl<T: Bits> View for BitVec<T> {
    type V = Seq<bool>;

    /// The booleans, position by position: chunk `i / width` holds position `i` in its bit
    /// `i % width`.
    open spec fn view(&self) -> Seq<bool> {
        Seq::new(self.bits(), |i: int| self.bit(i))
    }
}

impl<T: Bits> BitVec<T> {
    /// Number of positions.
    pub open spec fn bits(&self) -> nat {
        self.chunks@.len() * T::width()
    }

    /// The boolean at position `i`.
    pub open spec fn bit(&self, i: int) -> bool {
        self.chunks@[i / (T::width() as int)].bit(i % (T::width() as int))
    }

    /// Two vectors with the same chunks hold the same booleans, and the other way round.
    pub proof fn lemma_view_determines_chunks(a: &Self, b: &Self)
        requires
            a@ == b@,
        ensures
            a.chunks@ == b.chunks@,
    {
        T::lemma_width_positive();
        let w = T::width() as int;
        assert(a@.len() == a.bits() && b@.len() == b.bits());
        let (na, nb) = (a.chunks@.len() as int, b.chunks@.len() as int);
        assert(na * w == nb * w);
        assert(na == nb) by (nonlinear_arith)
            requires
                na * w == nb * w,
                0 < w,
        ;
        let n = a.chunks@.len() as int;
        assert forall|c: int| 0 <= c < n implies a.chunks@[c] == b.chunks@[c] by {
            assert forall|k: int| 0 <= k < w implies a.chunks@[c].bit(k) == b.chunks@[c].bit(k) by {
                lemma_index_join(c, k, w, n);
                assert(a@[c * w + k] == a.bit(c * w + k));
                assert(b@[c * w + k] == b.bit(c * w + k));
            }
            T::lemma_bits_determine(a.chunks@[c], b.chunks@[c]);
        }
        assert(a.chunks@ =~= b.chunks@);
    }

    /// A vector of `cap` chunks, every boolean false.
    pub fn new(cap: usize) -> (r: Self)
        ensures
            r.chunks@.len() == cap,
            forall|i: int| 0 <= i < r.bits() ==> !r.bit(i),
            r@ == Seq::new(cap as nat * T::width(), |i: int| false),
    {
        let mut chunks: Vec<T> = Vec::new();
        let mut k: usize = 0;
        while k < cap
            invariant
                k <= cap,
                chunks@.len() == k,
                forall|c: int, b: int|
                    0 <= c < k && 0 <= b < T::width() ==> !#[trigger] chunks@[c].bit(b),
            decreases cap - k,
        {
            chunks.push(T::zero());
            k += 1;
        }
        let r = BitVec { chunks };
        proof {
            T::lemma_width_positive();
            assert forall|i: int| 0 <= i < r.bits() implies !r.bit(i) by {
                lemma_index_split(i, T::width() as int, cap as int);
            }
            assert(r@ =~= Seq::new(cap as nat * T::width(), |i: int| false));
        }
        r
    }

    /// A vector with room for `count` booleans, rounded up to whole chunks, all false.
    pub fn with_count(count: usize) -> (r: Self)
        ensures
            r.chunks@.len() == (count + T::width() - 1) / (T::width() as int),
            count <= r.bits() < count + T::width(),
            forall|i: int| 0 <= i < r.bits() ==> !r.bit(i),
            r@ == Seq::new(r.bits(), |i: int| false),
    {
        proof {
            T::lemma_width_positive();
        }
        let w = T::size();
        proof {
            let (n, wi) = (count as int, w as int);
            vstd::arithmetic::div_mod::lemma_fundamental_div_mod(n, wi);
            vstd::arithmetic::div_mod::lemma_mod_bound(n, wi);
            assert(n % wi != 0 ==> 2 * (n / wi) <= n) by (nonlinear_arith)
                requires
                    n == wi * (n / wi) + n % wi,
                    0 <= n % wi < wi,
                    0 <= n,
            ;
        }
        let cap = if count % w == 0 {
            count / w
        } else {
            count / w + 1
        };
        proof {
            let (n, wi) = (count as int, w as int);
            vstd::arithmetic::div_mod::lemma_fundamental_div_mod(n, wi);
            vstd::arithmetic::div_mod::lemma_mod_bound(n, wi);
            assert(wi * (n / wi) == (n / wi) * wi) by (nonlinear_arith);
            if count % w == 0 {
                vstd::arithmetic::div_mod::lemma_fundamental_div_mod_converse(
                    n + wi - 1,
                    wi,
                    n / wi,
                    wi - 1,
                );
            } else {
                assert((n / wi + 1) * wi + (n % wi - 1) == n + wi - 1) by (nonlinear_arith)
                    requires
                        n == wi * (n / wi) + n % wi,
                ;
                vstd::arithmetic::div_mod::lemma_fundamental_div_mod_converse(
                    n + wi - 1,
                    wi,
                    n / wi + 1,
                    n % wi - 1,
                );
                assert((n / wi + 1) * wi == (n / wi) * wi + wi) by (nonlinear_arith);
            }
        }
        Self::new(cap)
    }

    /// Number of chunks.
    pub fn cap(&self) -> (r: usize)
        ensures
            r == self.chunks@.len(),
    {
        self.chunks.len()
    }

    /// Chunk `i`.
    pub fn get_chunk(&self, i: usize) -> (r: T)
        requires
            i < self.chunks@.len(),
        ensures
            r == self.chunks@[i as int],
    {
        self.chunks[i]
    }

    /// Chunk `i`, to be changed in place.
    pub fn get_chunk_mut(&mut self, i: usize) -> (r: &mut T)
        requires
            i < old(self).chunks@.len(),
        ensures
            *r == old(self).chunks@[i as int],
            final(self).chunks@ == old(self).chunks@.update(i as int, *final(r)),
    {
        &mut self.chunks[i]
    }

    /// Replaces chunk `i`.
    pub fn set_chunk(&mut self, i: usize, chunk: T)
        requires
            i < old(self).chunks@.len(),
        ensures
            final(self).chunks@ == old(self).chunks@.update(i as int, chunk),
    {
        self.chunks.set(i, chunk);
    }

    /// Makes true every position of chunk `c` that `mask` has.
    pub fn or_chunk(&mut self, c: usize, mask: T)
        requires
            c < old(self).chunks@.len(),
        ensures
            final(self).chunks@.len() == old(self).chunks@.len(),
            final(self)@ == Seq::new(
                old(self)@.len(),
                |i: int| old(self)@[i] || in_mask(mask, c as int, i),
            ),
    {
        let merged = self.chunks[c].or(mask);
        self.chunks.set(c, merged);
        proof {
            T::lemma_width_positive();
            let n = self.chunks@.len() as int;
            assert forall|i: int| 0 <= i < self.bits() implies self.bit(i) == (old(self).bit(i)
                || in_mask(mask, c as int, i)) by {
                lemma_index_split(i, T::width() as int, n);
            }
            assert(self@ =~= Seq::new(
                old(self)@.len(),
                |i: int| old(self)@[i] || in_mask(mask, c as int, i),
            ));
        }
    }

    /// Makes false every position of chunk `c` that `mask` has.
    pub fn and_not_chunk(&mut self, c: usize, mask: T)
        requires
            c < old(self).chunks@.len(),
        ensures
            final(self).chunks@.len() == old(self).chunks@.len(),
            final(self)@ == Seq::new(
                old(self)@.len(),
                |i: int| old(self)@[i] && !in_mask(mask, c as int, i),
            ),
    {
        let kept = self.chunks[c].and(mask.not());
        self.chunks.set(c, kept);
        proof {
            T::lemma_width_positive();
            let n = self.chunks@.len() as int;
            assert forall|i: int| 0 <= i < self.bits() implies self.bit(i) == (old(self).bit(i)
                && !in_mask(mask, c as int, i)) by {
                lemma_index_split(i, T::width() as int, n);
            }
            assert(self@ =~= Seq::new(
                old(self)@.len(),
                |i: int| old(self)@[i] && !in_mask(mask, c as int, i),
            ));
        }
    }

    /// The boolean at position `i`.
    pub fn get(&self, i: usize) -> (r: bool)
        requires
            i < self.bits(),
        ensures
            r == self@[i as int],
    {
        proof {
            T::lemma_width_positive();
            lemma_index_split(i as int, T::width() as int, self.chunks@.len() as int);
        }
        let w = T::size();
        self.chunks[i / w].get(i % w)
    }

    /// Makes the boolean at position `i` true.
    pub fn set(&mut self, i: usize)
        requires
            i < old(self).bits(),
        ensures
            final(self).chunks@.len() == old(self).chunks@.len(),
            final(self)@ == old(self)@.update(i as int, true),
    {
        proof {
            T::lemma_width_positive();
            lemma_index_split(i as int, T::width() as int, self.chunks@.len() as int);
        }
        let w = T::size();
        let mut chunk = self.chunks[i / w];
        chunk.set(i % w);
        self.chunks.set(i / w, chunk);
        proof {
            let n = self.chunks@.len() as int;
            assert forall|j: int| 0 <= j < self.bits() implies self.bit(j) == old(self)@.update(
                i as int,
                true,
            )[j] by {
                lemma_index_split(j, w as int, n);
            }
            assert(self@ =~= old(self)@.update(i as int, true));
        }
    }

    /// Makes the boolean at position `i` false.
    pub fn unset(&mut self, i: usize)
        requires
            i < old(self).bits(),
        ensures
            final(self).chunks@.len() == old(self).chunks@.len(),
            final(self)@ == old(self)@.update(i as int, false),
    {
        proof {
            T::lemma_width_positive();
            lemma_index_split(i as int, T::width() as int, self.chunks@.len() as int);
        }
        let w = T::size();
        let mut chunk = self.chunks[i / w];
        chunk.unset(i % w);
        self.chunks.set(i / w, chunk);
        proof {
            let n = self.chunks@.len() as int;
            assert forall|j: int| 0 <= j < self.bits() implies self.bit(j) == old(self)@.update(
                i as int,
                false,
            )[j] by {
                lemma_index_split(j, w as int, n);
            }
            assert(self@ =~= old(self)@.update(i as int, false));
        }
    }

    /// The highest position that holds true, if any does.
    pub fn last_set(&self) -> (r: Option<usize>)
        requires
            self.bits() <= usize::MAX,
        ensures
            match r {
                Some(i) => i < self.bits() && self@[i as int] && forall|j: int|
                    i < j < self.bits() ==> !self@[j],
                None => forall|j: int| 0 <= j < self.bits() ==> !self@[j],
            },
    {
        proof {
            T::lemma_width_positive();
        }
        let w = T::size();
        let n = self.chunks.len();
        let mut c: usize = n;
        while c > 0
            invariant
                c <= n,
                n == self.chunks@.len(),
                w == T::width(),
                0 < w,
                self.bits() <= usize::MAX,
                forall|j: int| c * w <= j < self.bits() ==> !self@[j],
            decreases c,
        {
            c -= 1;
            let chunk = self.chunks[c];
            let lz = chunk.leading_zeros();
            proof {
                lemma_index_join(c as int, w - 1, w as int, n as int);
            }
            if lz < w {
                let i = c * w + (w - 1 - lz);
                proof {
                    lemma_index_join(c as int, w - 1 - lz, w as int, n as int);
                    assert(self@[i as int] == self.bit(i as int));
                    assert forall|j: int| i < j < self.bits() implies !self@[j] by {
                        if j < c * w + w {
                            lemma_index_in_chunk(j, w as int, c as int);
                            assert(self@[j] == self.bit(j));
                        } else {
                            assert((c + 1) * w == c * w + w) by (nonlinear_arith);
                        }
                    }
                }
                return Some(i);
            }
            proof {
                assert forall|j: int| c * w <= j < self.bits() implies !self@[j] by {
                    if j < c * w + w {
                        lemma_index_in_chunk(j, w as int, c as int);
                        assert(self@[j] == self.bit(j));
                    } else {
                        assert((c + 1) * w == c * w + w) by (nonlinear_arith);
                    }
                }
            }
        }
        None
    }

    /// Whether `i` names a position of this vector.
    pub fn in_range(&self, i: usize) -> (r: bool)
        ensures
            r == (i < self.bits()),
    {
        proof {
            T::lemma_width_positive();
        }
        let w = T::size();
        let c = i / w;
        proof {
            let n = self.chunks@.len() as int;
            vstd::arithmetic::div_mod::lemma_fundamental_div_mod(i as int, w as int);
            vstd::arithmetic::div_mod::lemma_mod_bound(i as int, w as int);
            if c < n {
                lemma_index_join(c as int, (i % w) as int, w as int, n);
                assert((w as int) * (c as int) == (c as int) * (w as int)) by (nonlinear_arith);
            } else {
                if (i as int) < n * (w as int) {
                    lemma_index_split(i as int, w as int, n);
                }
            }
        }
        c < self.chunks.len()
    }

    /// The boolean at position `i`, or `IndexOutOfRange` if there is no such position.
    pub fn checked_get(&self, i: usize) -> (r: Result<bool, Error>)
        ensures
            i < self.bits() ==> r == Ok::<bool, Error>(self@[i as int]),
            i >= self.bits() ==> r == Err::<bool, Error>(Error::IndexOutOfRange),
    {
        if self.in_range(i) {
            Ok(self.get(i))
        } else {
            Err(Error::IndexOutOfRange)
        }
    }

    /// Makes the boolean at position `i` true, or reports `IndexOutOfRange` and changes
    /// nothing if there is no such position.
    pub fn checked_set(&mut self, i: usize) -> (r: Result<(), Error>)
        ensures
            final(self).chunks@.len() == old(self).chunks@.len(),
            i < old(self).bits() ==> r.is_ok() && final(self)@ == old(self)@.update(i as int, true),
            i >= old(self).bits() ==> r == Err::<(), Error>(Error::IndexOutOfRange) && *final(self)
                == *old(self),
    {
        if self.in_range(i) {
            self.set(i);
            Ok(())
        } else {
            Err(Error::IndexOutOfRange)
        }
    }

    /// Makes the boolean at position `i` false, or reports `IndexOutOfRange` and changes
    /// nothing if there is no such position.
    pub fn checked_unset(&mut self, i: usize) -> (r: Result<(), Error>)
        ensures
            final(self).chunks@.len() == old(self).chunks@.len(),
            i < old(self).bits() ==> r.is_ok() && final(self)@ == old(self)@.update(i as int, false),
            i >= old(self).bits() ==> r == Err::<(), Error>(Error::IndexOutOfRange) && *final(self)
                == *old(self),
    {
        if self.in_range(i) {
            self.unset(i);
            Ok(())
        } else {
            Err(Error::IndexOutOfRange)
        }
    }

    /// Makes every boolean false.
    pub fn clear(&mut self)
        ensures
            final(self).chunks@.len() == old(self).chunks@.len(),
            final(self)@ == Seq::new(old(self).bits(), |i: int| false),
    {
        let n = self.chunks.len();
        let mut k: usize = 0;
        while k < n
            invariant
                k <= n,
                self.chunks@.len() == n,
                forall|c: int, b: int|
                    0 <= c < k && 0 <= b < T::width() ==> !#[trigger] self.chunks@[c].bit(b),
            decreases n - k,
        {
            self.chunks.set(k, T::zero());
            k += 1;
        }
        proof {
            T::lemma_width_positive();
            assert forall|i: int| 0 <= i < self.bits() implies !self.bit(i) by {
                lemma_index_split(i, T::width() as int, n as int);
            }
            assert(self@ =~= Seq::new(old(self).bits(), |i: int| false));
        }
    }

    /// Overwrites the first chunks of this vector with the chunks of `src`.
    pub fn copy(&mut self, src: &Self)
        requires
            src.chunks@.len() <= old(self).chunks@.len(),
        ensures
            final(self).chunks@ == src.chunks@ + old(self).chunks@.skip(src.chunks@.len() as int),
    {
        let n = src.chunks.len();
        let mut k: usize = 0;
        while k < n
            invariant
                k <= n,
                n == src.chunks@.len(),
                self.chunks@.len() == old(self).chunks@.len(),
                n <= self.chunks@.len(),
                forall|c: int| 0 <= c < k ==> self.chunks@[c] == src.chunks@[c],
                forall|c: int| k <= c < self.chunks@.len() ==> self.chunks@[c] == old(self).chunks@[c],
            decreases n - k,
        {
            self.chunks.set(k, src.chunks[k]);
            k += 1;
        }
        assert(self.chunks@ =~= src.chunks@ + old(self).chunks@.skip(src.chunks@.len() as int));
    }

    /// Combines the first chunks of this vector with the chunks of `rhs`, chunk by chunk:
    /// chunk `i` becomes `op(chunk i, chunk i of rhs)`.
    pub fn binop<F: Fn(T, T) -> T>(&mut self, rhs: &Self, op: F)
        requires
            rhs.chunks@.len() <= old(self).chunks@.len(),
            forall|a: T, b: T| call_requires(op, (a, b)),
        ensures
            final(self).chunks@.len() == old(self).chunks@.len(),
            forall|c: int|
                0 <= c < rhs.chunks@.len() ==> call_ensures(
                    op,
                    (old(self).chunks@[c], rhs.chunks@[c]),
                    #[trigger] final(self).chunks@[c],
                ),
            forall|c: int|
                rhs.chunks@.len() <= c < old(self).chunks@.len() ==> final(self).chunks@[c] == old(
                    self,
                ).chunks@[c],
    {
        let n = rhs.chunks.len();
        let mut k: usize = 0;
        while k < n
            invariant
                k <= n,
                n == rhs.chunks@.len(),
                self.chunks@.len() == old(self).chunks@.len(),
                n <= self.chunks@.len(),
                forall|a: T, b: T| call_requires(op, (a, b)),
                forall|c: int|
                    0 <= c < k ==> call_ensures(
                        op,
                        (old(self).chunks@[c], rhs.chunks@[c]),
                        #[trigger] self.chunks@[c],
                    ),
                forall|c: int| k <= c < self.chunks@.len() ==> self.chunks@[c] == old(self).chunks@[c],
            decreases n - k,
        {
            let merged = op(self.chunks[k], rhs.chunks[k]);
            self.chunks.set(k, merged);
            k += 1;
        }
    }
}

impl<T: Bits> Clone for BitVec<T> {
    fn clone(&self) -> (r: Self)
        ensures
            r.chunks@ == self.chunks@,
            r@ == self@,
    {
        let n = self.chunks.len();
        let mut chunks: Vec<T> = Vec::new();
        let mut k: usize = 0;
        while k < n
            invariant
                k <= n,
                n == self.chunks@.len(),
                chunks@ == self.chunks@.take(k as int),
            decreases n - k,
        {
            chunks.push(self.chunks[k]);
            assert(chunks@ =~= self.chunks@.take(k + 1));
            k += 1;
        }
        assert(chunks@ =~= self.chunks@);
        let r = BitVec { chunks };
        assert(r@ =~= self@);
        r
    }
}

impl<T: Bits> Default for BitVec<T> {
    fn default() -> (r: Self)
        ensures
            r.chunks@.len() == 0,
            r@ == Seq::<bool>::empty(),
    {
        let r = BitVec { chunks: Vec::new() };
        assert(r@ =~= Seq::<bool>::empty());
        r
    }
}

/// A chunk that is to be shown bit by bit.
#[derive(Debug)]
pub struct BinaryFmt<T: Bits>(pub T);

impl<T: Bits> BinaryFmt<T> {
    /// The chunk in binary, the highest bit first, as many digits as the chunk has bits:
    /// the character `1` for a set bit, `0` for a clear one.
    pub fn digits(&self) -> (r: Vec<u8>)
        ensures
            r@.len() == T::width(),
            forall|i: int|
                0 <= i < T::width() ==> #[trigger] r@[i] == (if self.0.bit(T::width() - 1 - i) {
                    49u8
                } else {
                    48u8
                }),
    {
        let w = T::size();
        let mut digits: Vec<u8> = Vec::new();
        let mut i: usize = 0;
        while i < w
            invariant
                i <= w,
                w == T::width(),
                digits@.len() == i,
                forall|j: int|
                    0 <= j < i ==> #[trigger] digits@[j] == (if self.0.bit(w - 1 - j) {
                        49u8
                    } else {
                        48u8
                    }),
            decreases w - i,
        {
            if self.0.get(w - 1 - i) {
                digits.push(49);
            } else {
                digits.push(48);
            }
            i += 1;
        }
        digits
    }
}

} // verus!
