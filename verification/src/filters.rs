//! Packed booleans over 64-bit cells: one boolean per position, or a pair of them.

use crate::bits::Bits;
use crate::bitvec::{lemma_index_in_chunk, lemma_index_join, lemma_index_split, BitVec};
use vstd::prelude::*;

verus! {

/// The word that holds 64 positions.
pub type Cell = u64;

/// Number of positions in a cell.
pub const CELL_SIZE: usize = 64;

/// How far an index is shifted to give the cell that holds it.
pub const CELL_SHIFT: usize = 6;

/// The part of an index that names a bit within its cell.
pub const CELL_MASK: usize = 63;

/// Number of cells that `n` positions need.
pub fn cells_for(n: usize) -> (r: usize)
    ensures
        r == (n + 63) / 64,
        n <= r * 64 < n + 64,
{
    if n % CELL_SIZE == 0 {
        n / CELL_SIZE
    } else {
        n / CELL_SIZE + 1
    }
}

/// One boolean per position.
#[derive(Debug)]
pub struct Filter {
    cells: BitVec<Cell>,
}

impl View for Filter {
    type V = Seq<bool>;

    closed spec fn view(&self) -> Seq<bool> {
        self.cells@
    }
}

impl Filter {
    /// A filter with room for `n` positions, rounded up to whole cells, all false.
    pub fn new(n: usize) -> (r: Self)
        requires
            n + 63 <= usize::MAX,
        ensures
            r@ == Seq::new((((n + 63) / 64) * 64) as nat, |i: int| false),
            n <= r@.len() < n + 64,
    {
        let capacity = cells_for(n);
        Filter { cells: BitVec::new(capacity) }
    }

    /// The boolean at position `n`.
    pub fn get(&self, n: usize) -> (r: bool)
        requires
            n < self@.len(),
        ensures
            r == self@[n as int],
    {
        self.cells.get(n)
    }

    /// Makes the boolean at position `n` true.
    pub fn set(&mut self, n: usize)
        requires
            n < old(self)@.len(),
        ensures
            final(self)@ == old(self)@.update(n as int, true),
    {
        self.cells.set(n);
    }

    /// Makes the boolean at position `n` false.
    pub fn unset(&mut self, n: usize)
        requires
            n < old(self)@.len(),
        ensures
            final(self)@ == old(self)@.update(n as int, false),
    {
        self.cells.unset(n);
    }

    /// Flips the boolean at position `n`.
    pub fn toggle(&mut self, n: usize)
        requires
            n < old(self)@.len(),
        ensures
            final(self)@ == old(self)@.update(n as int, !old(self)@[n as int]),
    {
        if self.cells.get(n) {
            self.cells.unset(n);
        } else {
            self.cells.set(n);
        }
    }

    /// The highest position that holds true, if any does.
    pub fn last(&self) -> (r: Option<usize>)
        requires
            self@.len() <= usize::MAX,
        ensures
            match r {
                Some(i) => i < self@.len() && self@[i as int] && forall|j: int|
                    i < j < self@.len() ==> !self@[j],
                None => forall|j: int| 0 <= j < self@.len() ==> !self@[j],
            },
    {
        self.cells.last_set()
    }
}

/// A pair of booleans per position.
#[derive(Debug)]
pub struct DoubleFilter {
    pub cells: Vec<(Cell, Cell)>,
}

impl View for DoubleFilter {
    type V = Seq<(bool, bool)>;

    /// The pairs, position by position: cell `i / 64` holds position `i` in bit `i % 64`
    /// of each of its two words.
    open spec fn view(&self) -> Seq<(bool, bool)> {
        Seq::new(self.cells@.len() * 64, |i: int| self.pair(i))
    }
}

impl DoubleFilter {
    /// The pair at position `i`.
    pub open spec fn pair(&self, i: int) -> (bool, bool) {
        (self.cells@[i / 64].0.bit(i % 64), self.cells@[i / 64].1.bit(i % 64))
    }

    /// A filter with room for `n` positions, rounded up to whole cells, all pairs false.
    pub fn new(n: usize) -> (r: Self)
        requires
            n + 63 <= usize::MAX,
        ensures
            r.cells@.len() == (n + 63) / 64,
            r@ == Seq::new((((n + 63) / 64) * 64) as nat, |i: int| (false, false)),
    {
        let capacity = cells_for(n);
        let zero = <u64 as Bits>::zero();
        let mut cells: Vec<(Cell, Cell)> = Vec::new();
        let mut k: usize = 0;
        while k < capacity
            invariant
                k <= capacity,
                cells@.len() == k,
                forall|n: int| 0 <= n < 64 ==> !#[trigger] zero.bit(n),
                forall|c: int| 0 <= c < k ==> (#[trigger] cells@[c]) == (zero, zero),
            decreases capacity - k,
        {
            cells.push((zero, zero));
            k += 1;
        }
        let r = DoubleFilter { cells };
        proof {
            assert forall|i: int| 0 <= i < capacity * 64 implies r.pair(i) == (false, false) by {
                lemma_index_split(i, 64, capacity as int);
                assert(r.cells@[i / 64] == (zero, zero));
            }
            assert(r@ =~= Seq::new((((n + 63) / 64) * 64) as nat, |i: int| (false, false)));
        }
        r
    }

    /// The pair at position `n`.
    pub fn get(&self, n: usize) -> (r: (bool, bool))
        requires
            n < self@.len(),
        ensures
            r == self@[n as int],
    {
        proof {
            lemma_index_split(n as int, 64, self.cells@.len() as int);
        }
        assert(n >> 6 == n / 64 && n & 63 == n % 64) by (bit_vector);
        let cell = &self.cells[n >> CELL_SHIFT];
        (cell.0.get(n & CELL_MASK), cell.1.get(n & CELL_MASK))
    }

    /// Makes the pair at position `n` be `(first, second)`.
    pub fn set(&mut self, n: usize, first: bool, second: bool)
        requires
            n < old(self)@.len(),
        ensures
            final(self)@ == old(self)@.update(n as int, (first, second)),
    {
        proof {
            lemma_index_split(n as int, 64, self.cells@.len() as int);
        }
        assert(n >> 6 == n / 64 && n & 63 == n % 64) by (bit_vector);
        let index = n >> CELL_SHIFT;
        let bit = n & CELL_MASK;
        let (mut a, mut b) = self.cells[index];
        if first {
            a.set(bit);
        } else {
            a.unset(bit);
        }
        if second {
            b.set(bit);
        } else {
            b.unset(bit);
        }
        self.cells.set(index, (a, b));
        proof {
            assert forall|j: int| 0 <= j < self@.len() implies self.pair(j) == old(self)@.update(
                n as int,
                (first, second),
            )[j] by {
                lemma_index_split(j, 64, self.cells@.len() as int);
            }
            assert(self@ =~= old(self)@.update(n as int, (first, second)));
        }
    }

    /// The highest position whose two booleans are both true, if there is one.
    pub fn last(&self) -> (r: Option<usize>)
        requires
            self@.len() <= usize::MAX,
        ensures
            match r {
                Some(i) => i < self@.len() && self@[i as int] == (true, true) && forall|j: int|
                    i < j < self@.len() ==> self@[j] != (true, true),
                None => forall|j: int| 0 <= j < self@.len() ==> self@[j] != (true, true),
            },
    {
        let n = self.cells.len();
        let mut c: usize = n;
        while c > 0
            invariant
                c <= n,
                n == self.cells@.len(),
                self@.len() <= usize::MAX,
                forall|j: int| c * 64 <= j < self@.len() ==> self@[j] != (true, true),
            decreases c,
        {
            c -= 1;
            let combined = self.cells[c].0.and(self.cells[c].1);
            let lz = Bits::leading_zeros(combined);
            if lz < CELL_SIZE {
                let i = c * CELL_SIZE + (CELL_SIZE - 1 - lz);
                proof {
                    lemma_index_join(c as int, 63 - lz, 64, n as int);
                    assert(self@[i as int] == self.pair(i as int));
                    assert forall|j: int| i < j < self@.len() implies self@[j] != (true, true) by {
                        if j < c * 64 + 64 {
                            lemma_index_in_chunk(j, 64, c as int);
                            assert(self@[j] == self.pair(j));
                            assert(!combined.bit(j % 64));
                        }
                    }
                }
                return Some(i);
            }
            proof {
                assert forall|j: int| c * 64 <= j < self@.len() implies self@[j] != (true, true) by {
                    if j < c * 64 + 64 {
                        lemma_index_in_chunk(j, 64, c as int);
                        assert(self@[j] == self.pair(j));
                        assert(!combined.bit(j % 64));
                    }
                }
            }
        }
        None
    }
}

} // verus!
