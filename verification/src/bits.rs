//! Fixed-width chunks of bits.
//!
//! A chunk is modelled as a finite map from bit positions to booleans: `x.bit(n)` is the
//! `n`‑th bit of `x`, for `0 <= n < width()`. Every operation of the trait is specified
//! position by position, so code that is generic over the chunk type never has to reason
//! about machine words.

use vstd::prelude::*;
use vstd::std_specs::bits::*;

verus! {

/// An unsigned machine word used as a chunk of packed booleans.
pub trait Bits: Copy + Sized {
    /// Number of bits held by one chunk.
    spec fn width() -> nat;

    /// The bit at position `n`; meaningful for `0 <= n < width()`.
    spec fn bit(self, n: int) -> bool;

    /// The chunk read as an unsigned number.
    spec fn word(self) -> u64;

    /// The chunk that has every bit that either chunk has.
    spec fn union(self, rhs: Self) -> Self;

    /// Two chunks that agree on every position are the same chunk.
    proof fn lemma_bits_determine(a: Self, b: Self)
        requires
            forall|n: int| 0 <= n < Self::width() ==> a.bit(n) == b.bit(n),
        ensures
            a == b,
    ;

    /// A chunk has at least one position.
    proof fn lemma_width_positive()
        ensures
            0 < Self::width() <= 64,
    ;

    /// Number of bits held by one chunk.
    fn size() -> (r: usize)
        ensures
            r == Self::width(),
    ;

    /// The chunk with every bit clear.
    fn zero() -> (r: Self)
        ensures
            forall|n: int| 0 <= n < Self::width() ==> !#[trigger] r.bit(n),
    ;

    /// Number of clear bits below the lowest set bit, or the width if no bit is set.
    fn trailing_zeros(self) -> (r: usize)
        ensures
            r <= Self::width(),
            r < Self::width() ==> self.bit(r as int),
            forall|n: int| 0 <= n < r ==> !#[trigger] self.bit(n),
    ;

    /// Number of clear bits above the highest set bit, or the width if no bit is set.
    fn leading_zeros(self) -> (r: usize)
        ensures
            r <= Self::width(),
            r < Self::width() ==> self.bit(Self::width() - 1 - r),
            forall|n: int| Self::width() - r <= n < Self::width() ==> !#[trigger] self.bit(n),
    ;

    /// Reads bit `n`.
    fn get(self, n: usize) -> (r: bool)
        requires
            n < Self::width(),
        ensures
            r == self.bit(n as int),
    ;

    /// Sets bit `n` and leaves the others as they were.
    fn set(&mut self, n: usize)
        requires
            n < Self::width(),
        ensures
            forall|i: int|
                0 <= i < Self::width() ==> #[trigger] final(self).bit(i) == (i == n || old(self).bit(i)),
    ;

    /// Clears bit `n` and leaves the others as they were.
    fn unset(&mut self, n: usize)
        requires
            n < Self::width(),
        ensures
            forall|i: int|
                0 <= i < Self::width() ==> #[trigger] final(self).bit(i) == (i != n && old(self).bit(i)),
    ;

    /// Bitwise disjunction.
    fn or(self, rhs: Self) -> (r: Self)
        ensures
            r == self.union(rhs),
            forall|n: int|
                0 <= n < Self::width() ==> #[trigger] r.bit(n) == (self.bit(n) || rhs.bit(n)),
    ;

    /// Bitwise conjunction.
    fn and(self, rhs: Self) -> (r: Self)
        ensures
            forall|n: int|
                0 <= n < Self::width() ==> #[trigger] r.bit(n) == (self.bit(n) && rhs.bit(n)),
    ;

    /// Bitwise complement.
    fn not(self) -> (r: Self)
        ensures
            forall|n: int| 0 <= n < Self::width() ==> #[trigger] r.bit(n) == !self.bit(n),
    ;

    /// Moves every bit `n` positions down; the top `n` positions become clear.
    fn shr(self, n: usize) -> (r: Self)
        requires
            n < Self::width(),
        ensures
            forall|i: int|
                0 <= i < Self::width() ==> #[trigger] r.bit(i) == (i + n < Self::width() && self.bit(
                    i + n,
                )),
    ;

    /// Whether two chunks are the same.
    fn same(self, rhs: Self) -> (r: bool)
        ensures
            r == (self == rhs),
    ;

    /// The chunk as an unsigned number.
    fn to_word(self) -> (r: u64)
        ensures
            r == self.word(),
    ;
}

/// Bit `n` of an 8-bit word.
pub open spec fn bit8(x: u8, n: u8) -> bool {
    (x >> n) & 1u8 == 1u8
}

proof fn lemma_u8_bitwise()
    by (bit_vector)
    ensures
        forall|n: u8| n < 8 ==> !#[trigger] bit8(0u8, n),
        forall|a: u8, n: u8, i: u8|
            n < 8 && i < 8 ==> #[trigger] bit8(a | (1u8 << n), i) == (i == n || bit8(a, i)),
        forall|a: u8, n: u8, i: u8|
            n < 8 && i < 8 ==> #[trigger] bit8(a & !(1u8 << n), i) == (i != n && bit8(a, i)),
        forall|a: u8, b: u8, n: u8| n < 8 ==> #[trigger] bit8(a | b, n) == (bit8(a, n) || bit8(b, n)),
        forall|a: u8, b: u8, n: u8| n < 8 ==> #[trigger] bit8(a & b, n) == (bit8(a, n) && bit8(b, n)),
        forall|a: u8, n: u8| n < 8 ==> #[trigger] bit8(!a, n) == !bit8(a, n),
        forall|a: u8, n: u8, i: u8|
            n < 8 && i < 8 ==> #[trigger] bit8(a >> n, i) == (i < 8 - n && bit8(a, (i + n) as u8)),
        forall|a: u8, b: u8, n: u8| n < 8 && #[trigger] bit8(a ^ b, n) ==> bit8(a, n) != bit8(b, n),
        forall|a: u8, b: u8| #[trigger] (a ^ b) == 0 ==> a == b,
        forall|a: u8| #[trigger] (a & 1u8) != 0 ==> (a & 1u8) == 1u8,
{
}

impl Bits for u8 {
    open spec fn width() -> nat {
        8
    }

    open spec fn bit(self, n: int) -> bool {
        bit8(self, n as u8)
    }

    open spec fn word(self) -> u64 {
        self as u64
    }

    open spec fn union(self, rhs: Self) -> Self {
        self | rhs
    }

    proof fn lemma_bits_determine(a: Self, b: Self) {
        lemma_u8_bitwise();
        let d = a ^ b;
        if d != 0 {
            axiom_u8_trailing_zeros(d);
            let k = u8_trailing_zeros(d) as u8;
            assert(bit8(d, k));
            assert(a.bit(k as int) == b.bit(k as int));
        }
    }

    proof fn lemma_width_positive() {
    }

    fn size() -> (r: usize) {
        8
    }

    fn zero() -> (r: Self) {
        proof {
            lemma_u8_bitwise();
        }
        0
    }

    fn trailing_zeros(self) -> (r: usize) {
        proof {
            axiom_u8_trailing_zeros(self);
        }
        let r = u8::trailing_zeros(self);
        assert forall|n: int| 0 <= n < r implies !#[trigger] self.bit(n) by {
            assert((self >> (n as u8)) & 1u8 == 0u8);
        }
        r as usize
    }

    fn leading_zeros(self) -> (r: usize) {
        proof {
            axiom_u8_leading_zeros(self);
            lemma_u8_bitwise();
        }
        let r = u8::leading_zeros(self);
        proof {
            if r < 8 {
                let k = (7 - r) as u8;
                assert((self >> k) & 1u8 != 0u8);
            }
            assert forall|n: int| 8 - r <= n < 8 implies !#[trigger] self.bit(n) by {
                assert((self >> (n as u8)) & 1u8 == 0u8);
            }
        }
        r as usize
    }

    fn get(self, n: usize) -> (r: bool) {
        (self >> (n as u8)) & 1u8 == 1u8
    }

    fn set(&mut self, n: usize) {
        proof {
            lemma_u8_bitwise();
        }
        *self = *self | (1u8 << (n as u8));
    }

    fn unset(&mut self, n: usize) {
        proof {
            lemma_u8_bitwise();
        }
        *self = *self & !(1u8 << (n as u8));
    }

    fn or(self, rhs: Self) -> (r: Self) {
        proof {
            lemma_u8_bitwise();
        }
        self | rhs
    }

    fn and(self, rhs: Self) -> (r: Self) {
        proof {
            lemma_u8_bitwise();
        }
        self & rhs
    }

    fn not(self) -> (r: Self) {
        proof {
            lemma_u8_bitwise();
        }
        !self
    }

    fn shr(self, n: usize) -> (r: Self) {
        proof {
            lemma_u8_bitwise();
        }
        let r = self >> (n as u8);
        assert forall|i: int| 0 <= i < 8 implies #[trigger] r.bit(i) == (i + n < 8 && self.bit(i + n)) by {
            assert(bit8(self >> (n as u8), i as u8) == ((i as u8) < 8 - (n as u8) && bit8(
                self,
                ((i as u8) + (n as u8)) as u8,
            )));
        }
        r
    }

    fn same(self, rhs: Self) -> (r: bool) {
        self == rhs
    }

    fn to_word(self) -> (r: u64) {
        self as u64
    }
}

/// Bit `n` of an 16-bit word.
pub open spec fn bit16(x: u16, n: u16) -> bool {
    (x >> n) & 1u16 == 1u16
}

proof fn lemma_u16_bitwise()
    by (bit_vector)
    ensures
        forall|n: u16| n < 16 ==> !#[trigger] bit16(0u16, n),
        forall|a: u16, n: u16, i: u16|
            n < 16 && i < 16 ==> #[trigger] bit16(a | (1u16 << n), i) == (i == n || bit16(a, i)),
        forall|a: u16, n: u16, i: u16|
            n < 16 && i < 16 ==> #[trigger] bit16(a & !(1u16 << n), i) == (i != n && bit16(a, i)),
        forall|a: u16, b: u16, n: u16| n < 16 ==> #[trigger] bit16(a | b, n) == (bit16(a, n) || bit16(b, n)),
        forall|a: u16, b: u16, n: u16| n < 16 ==> #[trigger] bit16(a & b, n) == (bit16(a, n) && bit16(b, n)),
        forall|a: u16, n: u16| n < 16 ==> #[trigger] bit16(!a, n) == !bit16(a, n),
        forall|a: u16, n: u16, i: u16|
            n < 16 && i < 16 ==> #[trigger] bit16(a >> n, i) == (i < 16 - n && bit16(a, (i + n) as u16)),
        forall|a: u16, b: u16, n: u16| n < 16 && #[trigger] bit16(a ^ b, n) ==> bit16(a, n) != bit16(b, n),
        forall|a: u16, b: u16| #[trigger] (a ^ b) == 0 ==> a == b,
        forall|a: u16| #[trigger] (a & 1u16) != 0 ==> (a & 1u16) == 1u16,
{
}

impl Bits for u16 {
    open spec fn width() -> nat {
        16
    }

    open spec fn bit(self, n: int) -> bool {
        bit16(self, n as u16)
    }

    open spec fn word(self) -> u64 {
        self as u64
    }

    open spec fn union(self, rhs: Self) -> Self {
        self | rhs
    }

    proof fn lemma_bits_determine(a: Self, b: Self) {
        lemma_u16_bitwise();
        let d = a ^ b;
        if d != 0 {
            axiom_u16_trailing_zeros(d);
            let k = u16_trailing_zeros(d) as u16;
            assert(bit16(d, k));
            assert(a.bit(k as int) == b.bit(k as int));
        }
    }

    proof fn lemma_width_positive() {
    }

    fn size() -> (r: usize) {
        16
    }

    fn zero() -> (r: Self) {
        proof {
            lemma_u16_bitwise();
        }
        0
    }

    fn trailing_zeros(self) -> (r: usize) {
        proof {
            axiom_u16_trailing_zeros(self);
        }
        let r = u16::trailing_zeros(self);
        assert forall|n: int| 0 <= n < r implies !#[trigger] self.bit(n) by {
            assert((self >> (n as u16)) & 1u16 == 0u16);
        }
        r as usize
    }

    fn leading_zeros(self) -> (r: usize) {
        proof {
            axiom_u16_leading_zeros(self);
            lemma_u16_bitwise();
        }
        let r = u16::leading_zeros(self);
        proof {
            if r < 16 {
                let k = (15 - r) as u16;
                assert((self >> k) & 1u16 != 0u16);
            }
            assert forall|n: int| 16 - r <= n < 16 implies !#[trigger] self.bit(n) by {
                assert((self >> (n as u16)) & 1u16 == 0u16);
            }
        }
        r as usize
    }

    fn get(self, n: usize) -> (r: bool) {
        (self >> (n as u16)) & 1u16 == 1u16
    }

    fn set(&mut self, n: usize) {
        proof {
            lemma_u16_bitwise();
        }
        *self = *self | (1u16 << (n as u16));
    }

    fn unset(&mut self, n: usize) {
        proof {
            lemma_u16_bitwise();
        }
        *self = *self & !(1u16 << (n as u16));
    }

    fn or(self, rhs: Self) -> (r: Self) {
        proof {
            lemma_u16_bitwise();
        }
        self | rhs
    }

    fn and(self, rhs: Self) -> (r: Self) {
        proof {
            lemma_u16_bitwise();
        }
        self & rhs
    }

    fn not(self) -> (r: Self) {
        proof {
            lemma_u16_bitwise();
        }
        !self
    }

    fn shr(self, n: usize) -> (r: Self) {
        proof {
            lemma_u16_bitwise();
        }
        let r = self >> (n as u16);
        assert forall|i: int| 0 <= i < 16 implies #[trigger] r.bit(i) == (i + n < 16 && self.bit(i + n)) by {
            assert(bit16(self >> (n as u16), i as u16) == ((i as u16) < 16 - (n as u16) && bit16(
                self,
                ((i as u16) + (n as u16)) as u16,
            )));
        }
        r
    }

    fn same(self, rhs: Self) -> (r: bool) {
        self == rhs
    }

    fn to_word(self) -> (r: u64) {
        self as u64
    }
}

/// Bit `n` of an 32-bit word.
pub open spec fn bit32(x: u32, n: u32) -> bool {
    (x >> n) & 1u32 == 1u32
}

proof fn lemma_u32_bitwise()
    by (bit_vector)
    ensures
        forall|n: u32| n < 32 ==> !#[trigger] bit32(0u32, n),
        forall|a: u32, n: u32, i: u32|
            n < 32 && i < 32 ==> #[trigger] bit32(a | (1u32 << n), i) == (i == n || bit32(a, i)),
        forall|a: u32, n: u32, i: u32|
            n < 32 && i < 32 ==> #[trigger] bit32(a & !(1u32 << n), i) == (i != n && bit32(a, i)),
        forall|a: u32, b: u32, n: u32| n < 32 ==> #[trigger] bit32(a | b, n) == (bit32(a, n) || bit32(b, n)),
        forall|a: u32, b: u32, n: u32| n < 32 ==> #[trigger] bit32(a & b, n) == (bit32(a, n) && bit32(b, n)),
        forall|a: u32, n: u32| n < 32 ==> #[trigger] bit32(!a, n) == !bit32(a, n),
        forall|a: u32, n: u32, i: u32|
            n < 32 && i < 32 ==> #[trigger] bit32(a >> n, i) == (i < 32 - n && bit32(a, (i + n) as u32)),
        forall|a: u32, b: u32, n: u32| n < 32 && #[trigger] bit32(a ^ b, n) ==> bit32(a, n) != bit32(b, n),
        forall|a: u32, b: u32| #[trigger] (a ^ b) == 0 ==> a == b,
        forall|a: u32| #[trigger] (a & 1u32) != 0 ==> (a & 1u32) == 1u32,
{
}

impl Bits for u32 {
    open spec fn width() -> nat {
        32
    }

    open spec fn bit(self, n: int) -> bool {
        bit32(self, n as u32)
    }

    open spec fn word(self) -> u64 {
        self as u64
    }

    open spec fn union(self, rhs: Self) -> Self {
        self | rhs
    }

    proof fn lemma_bits_determine(a: Self, b: Self) {
        lemma_u32_bitwise();
        let d = a ^ b;
        if d != 0 {
            axiom_u32_trailing_zeros(d);
            let k = u32_trailing_zeros(d) as u32;
            assert(bit32(d, k));
            assert(a.bit(k as int) == b.bit(k as int));
        }
    }

    proof fn lemma_width_positive() {
    }

    fn size() -> (r: usize) {
        32
    }

    fn zero() -> (r: Self) {
        proof {
            lemma_u32_bitwise();
        }
        0
    }

    fn trailing_zeros(self) -> (r: usize) {
        proof {
            axiom_u32_trailing_zeros(self);
        }
        let r = u32::trailing_zeros(self);
        assert forall|n: int| 0 <= n < r implies !#[trigger] self.bit(n) by {
            assert((self >> (n as u32)) & 1u32 == 0u32);
        }
        r as usize
    }

    fn leading_zeros(self) -> (r: usize) {
        proof {
            axiom_u32_leading_zeros(self);
            lemma_u32_bitwise();
        }
        let r = u32::leading_zeros(self);
        proof {
            if r < 32 {
                let k = (31 - r) as u32;
                assert((self >> k) & 1u32 != 0u32);
            }
            assert forall|n: int| 32 - r <= n < 32 implies !#[trigger] self.bit(n) by {
                assert((self >> (n as u32)) & 1u32 == 0u32);
            }
        }
        r as usize
    }

    fn get(self, n: usize) -> (r: bool) {
        (self >> (n as u32)) & 1u32 == 1u32
    }

    fn set(&mut self, n: usize) {
        proof {
            lemma_u32_bitwise();
        }
        *self = *self | (1u32 << (n as u32));
    }

    fn unset(&mut self, n: usize) {
        proof {
            lemma_u32_bitwise();
        }
        *self = *self & !(1u32 << (n as u32));
    }

    fn or(self, rhs: Self) -> (r: Self) {
        proof {
            lemma_u32_bitwise();
        }
        self | rhs
    }

    fn and(self, rhs: Self) -> (r: Self) {
        proof {
            lemma_u32_bitwise();
        }
        self & rhs
    }

    fn not(self) -> (r: Self) {
        proof {
            lemma_u32_bitwise();
        }
        !self
    }

    fn shr(self, n: usize) -> (r: Self) {
        proof {
            lemma_u32_bitwise();
        }
        let r = self >> (n as u32);
        assert forall|i: int| 0 <= i < 32 implies #[trigger] r.bit(i) == (i + n < 32 && self.bit(i + n)) by {
            assert(bit32(self >> (n as u32), i as u32) == ((i as u32) < 32 - (n as u32) && bit32(
                self,
                ((i as u32) + (n as u32)) as u32,
            )));
        }
        r
    }

    fn same(self, rhs: Self) -> (r: bool) {
        self == rhs
    }

    fn to_word(self) -> (r: u64) {
        self as u64
    }
}

/// Bit `n` of an 64-bit word.
pub open spec fn bit64(x: u64, n: u64) -> bool {
    (x >> n) & 1u64 == 1u64
}

proof fn lemma_u64_bitwise()
    by (bit_vector)
    ensures
        forall|n: u64| n < 64 ==> !#[trigger] bit64(0u64, n),
        forall|a: u64, n: u64, i: u64|
            n < 64 && i < 64 ==> #[trigger] bit64(a | (1u64 << n), i) == (i == n || bit64(a, i)),
        forall|a: u64, n: u64, i: u64|
            n < 64 && i < 64 ==> #[trigger] bit64(a & !(1u64 << n), i) == (i != n && bit64(a, i)),
        forall|a: u64, b: u64, n: u64| n < 64 ==> #[trigger] bit64(a | b, n) == (bit64(a, n) || bit64(b, n)),
        forall|a: u64, b: u64, n: u64| n < 64 ==> #[trigger] bit64(a & b, n) == (bit64(a, n) && bit64(b, n)),
        forall|a: u64, n: u64| n < 64 ==> #[trigger] bit64(!a, n) == !bit64(a, n),
        forall|a: u64, n: u64, i: u64|
            n < 64 && i < 64 ==> #[trigger] bit64(a >> n, i) == (i < 64 - n && bit64(a, (i + n) as u64)),
        forall|a: u64, b: u64, n: u64| n < 64 && #[trigger] bit64(a ^ b, n) ==> bit64(a, n) != bit64(b, n),
        forall|a: u64, b: u64| #[trigger] (a ^ b) == 0 ==> a == b,
        forall|a: u64| #[trigger] (a & 1u64) != 0 ==> (a & 1u64) == 1u64,
{
}

impl Bits for u64 {
    open spec fn width() -> nat {
        64
    }

    open spec fn bit(self, n: int) -> bool {
        bit64(self, n as u64)
    }

    open spec fn word(self) -> u64 {
        self as u64
    }

    open spec fn union(self, rhs: Self) -> Self {
        self | rhs
    }

    proof fn lemma_bits_determine(a: Self, b: Self) {
        lemma_u64_bitwise();
        let d = a ^ b;
        if d != 0 {
            axiom_u64_trailing_zeros(d);
            let k = u64_trailing_zeros(d) as u64;
            assert(bit64(d, k));
            assert(a.bit(k as int) == b.bit(k as int));
        }
    }

    proof fn lemma_width_positive() {
    }

    fn size() -> (r: usize) {
        64
    }

    fn zero() -> (r: Self) {
        proof {
            lemma_u64_bitwise();
        }
        0
    }

    fn trailing_zeros(self) -> (r: usize) {
        proof {
            axiom_u64_trailing_zeros(self);
        }
        let r = u64::trailing_zeros(self);
        assert forall|n: int| 0 <= n < r implies !#[trigger] self.bit(n) by {
            assert((self >> (n as u64)) & 1u64 == 0u64);
        }
        r as usize
    }

    fn leading_zeros(self) -> (r: usize) {
        proof {
            axiom_u64_leading_zeros(self);
            lemma_u64_bitwise();
        }
        let r = u64::leading_zeros(self);
        proof {
            if r < 64 {
                let k = (63 - r) as u64;
                assert((self >> k) & 1u64 != 0u64);
            }
            assert forall|n: int| 64 - r <= n < 64 implies !#[trigger] self.bit(n) by {
                assert((self >> (n as u64)) & 1u64 == 0u64);
            }
        }
        r as usize
    }

    fn get(self, n: usize) -> (r: bool) {
        (self >> (n as u64)) & 1u64 == 1u64
    }

    fn set(&mut self, n: usize) {
        proof {
            lemma_u64_bitwise();
        }
        *self = *self | (1u64 << (n as u64));
    }

    fn unset(&mut self, n: usize) {
        proof {
            lemma_u64_bitwise();
        }
        *self = *self & !(1u64 << (n as u64));
    }

    fn or(self, rhs: Self) -> (r: Self) {
        proof {
            lemma_u64_bitwise();
        }
        self | rhs
    }

    fn and(self, rhs: Self) -> (r: Self) {
        proof {
            lemma_u64_bitwise();
        }
        self & rhs
    }

    fn not(self) -> (r: Self) {
        proof {
            lemma_u64_bitwise();
        }
        !self
    }

    fn shr(self, n: usize) -> (r: Self) {
        proof {
            lemma_u64_bitwise();
        }
        let r = self >> (n as u64);
        assert forall|i: int| 0 <= i < 64 implies #[trigger] r.bit(i) == (i + n < 64 && self.bit(i + n)) by {
            assert(bit64(self >> (n as u64), i as u64) == ((i as u64) < 64 - (n as u64) && bit64(
                self,
                ((i as u64) + (n as u64)) as u64,
            )));
        }
        r
    }

    fn same(self, rhs: Self) -> (r: bool) {
        self == rhs
    }

    fn to_word(self) -> (r: u64) {
        self as u64
    }
}

/// Bit `n` of a word of the machine's width.
pub open spec fn bit_native(x: usize, n: usize) -> bool {
    (x >> n) & 1usize == 1usize
}

proof fn lemma_usize_bitwise()
    by (bit_vector)
    ensures
        usize::BITS == 32 || usize::BITS == 64,
        forall|n: usize| n < usize::BITS ==> !#[trigger] bit_native(0usize, n),
        forall|a: usize, n: usize, i: usize|
            n < usize::BITS && i < usize::BITS ==> #[trigger] bit_native(a | (1usize << n), i) == (i == n || bit_native(a, i)),
        forall|a: usize, n: usize, i: usize|
            n < usize::BITS && i < usize::BITS ==> #[trigger] bit_native(a & !(1usize << n), i) == (i != n && bit_native(a, i)),
        forall|a: usize, b: usize, n: usize| n < usize::BITS ==> #[trigger] bit_native(a | b, n) == (bit_native(a, n) || bit_native(b, n)),
        forall|a: usize, b: usize, n: usize| n < usize::BITS ==> #[trigger] bit_native(a & b, n) == (bit_native(a, n) && bit_native(b, n)),
        forall|a: usize, n: usize| n < usize::BITS ==> #[trigger] bit_native(!a, n) == !bit_native(a, n),
        forall|a: usize, n: usize, i: usize|
            n < usize::BITS && i < usize::BITS ==> #[trigger] bit_native(a >> n, i) == (i < usize::BITS - n && bit_native(a, (i + n) as usize)),
        forall|a: usize, b: usize, n: usize| n < usize::BITS && #[trigger] bit_native(a ^ b, n) ==> bit_native(a, n) != bit_native(b, n),
        forall|a: usize, b: usize| #[trigger] (a ^ b) == 0 ==> a == b,
        forall|a: usize| #[trigger] (a & 1usize) != 0 ==> (a & 1usize) == 1usize,
{
}

/// A set bit of a word of the machine's width, read as a 64-bit word, is a bit of the word.
proof fn lemma_usize_widened()
    by (bit_vector)
    ensures
        forall|d: usize, k: u64|
            k < 64 && #[trigger] bit64(d as u64, k) ==> k < usize::BITS && bit_native(d, k as usize),
        forall|d: usize| d != 0 ==> #[trigger] (d as u64) != 0,
{
}

impl Bits for usize {
    open spec fn width() -> nat {
        usize::BITS as nat
    }

    open spec fn bit(self, n: int) -> bool {
        bit_native(self, n as usize)
    }

    open spec fn word(self) -> u64 {
        self as u64
    }

    open spec fn union(self, rhs: Self) -> Self {
        self | rhs
    }

    proof fn lemma_bits_determine(a: Self, b: Self) {
        lemma_usize_bitwise();
        lemma_usize_widened();
        let d = a ^ b;
        if d != 0 {
            let wide = d as u64;
            axiom_u64_trailing_zeros(wide);
            let k = u64_trailing_zeros(wide) as u64;
            assert(bit64(wide, k));
            assert(bit_native(d, k as usize));
            assert(a.bit(k as int) == b.bit(k as int));
        }
    }

    proof fn lemma_width_positive() {
        lemma_usize_bitwise();
    }

    fn size() -> (r: usize) {
        proof {
            lemma_usize_bitwise();
        }
        usize::BITS as usize
    }

    fn zero() -> (r: Self) {
        proof {
            lemma_usize_bitwise();
        }
        0
    }

    fn trailing_zeros(self) -> (r: usize) {
        let w = Self::size();
        let mut r: usize = 0;
        while r < w && !self.get(r)
            invariant
                r <= w,
                w == Self::width(),
                forall|n: int| 0 <= n < r ==> !#[trigger] self.bit(n),
            decreases w - r,
        {
            r += 1;
        }
        r
    }

    fn leading_zeros(self) -> (r: usize) {
        let w = Self::size();
        let mut r: usize = 0;
        while r < w && !self.get(w - 1 - r)
            invariant
                r <= w,
                w == Self::width(),
                forall|n: int| w - r <= n < w ==> !#[trigger] self.bit(n),
            decreases w - r,
        {
            r += 1;
        }
        r
    }

    fn get(self, n: usize) -> (r: bool) {
        proof {
            lemma_usize_bitwise();
        }
        (self >> n) & 1usize == 1usize
    }

    fn set(&mut self, n: usize) {
        proof {
            lemma_usize_bitwise();
        }
        *self = *self | (1usize << n);
    }

    fn unset(&mut self, n: usize) {
        proof {
            lemma_usize_bitwise();
        }
        *self = *self & !(1usize << n);
    }

    fn or(self, rhs: Self) -> (r: Self) {
        proof {
            lemma_usize_bitwise();
        }
        self | rhs
    }

    fn and(self, rhs: Self) -> (r: Self) {
        proof {
            lemma_usize_bitwise();
        }
        self & rhs
    }

    fn not(self) -> (r: Self) {
        proof {
            lemma_usize_bitwise();
        }
        !self
    }

    fn shr(self, n: usize) -> (r: Self) {
        proof {
            lemma_usize_bitwise();
        }
        let r = self >> n;
        assert forall|i: int| 0 <= i < usize::BITS implies #[trigger] r.bit(i) == (i + n < usize::BITS
            && self.bit(i + n)) by {
            assert(bit_native(self >> n, i as usize) == ((i as usize) < usize::BITS - n && bit_native(
                self,
                ((i as usize) + n) as usize,
            )));
        }
        r
    }

    fn same(self, rhs: Self) -> (r: bool) {
        self == rhs
    }

    fn to_word(self) -> (r: u64) {
        self as u64
    }
}

} // verus!
