//! 64-bit square sets: bit `s` of the word is set when square `s` is in the set.
use vstd::prelude::*;
use vstd::std_specs::bits::u64_trailing_zeros;
use vstd::std_specs::bits::axiom_u64_trailing_zeros;

verus! {

/// Square `s` belongs to the set `b`.
pub open spec fn mem(b: u64, s: int) -> bool {
    0 <= s < 64 && (b >> (s as u64)) & 1u64 == 1u64
}

/// Number of members of `b` below square `n`.
pub open spec fn pop_upto(b: u64, n: int) -> int
    decreases n,
{
    if n <= 0 {
        0
    } else {
        pop_upto(b, n - 1) + if mem(b, n - 1) { 1int } else { 0int }
    }
}

/// Number of members of `b`.
pub open spec fn popcount(b: u64) -> int {
    pop_upto(b, 64)
}

/// The set holding exactly square `s`.
pub open spec fn single(s: int) -> u64 {
    1u64 << (s as u64)
}

pub broadcast proof fn lemma_has_or(a: u64, b: u64, t: int)
    ensures
        #[trigger] mem(a | b, t) == (mem(a, t) || mem(b, t)),
{
    if 0 <= t < 64 {
        let u = t as u64;
        assert(((a | b) >> u) & 1u64 == 1u64 <==> ((a >> u) & 1u64 == 1u64 || (b >> u) & 1u64
            == 1u64)) by (bit_vector);
    }
}

pub broadcast proof fn lemma_has_and(a: u64, b: u64, t: int)
    ensures
        #[trigger] mem(a & b, t) == (mem(a, t) && mem(b, t)),
{
    if 0 <= t < 64 {
        let u = t as u64;
        assert(((a & b) >> u) & 1u64 == 1u64 <==> ((a >> u) & 1u64 == 1u64 && (b >> u) & 1u64
            == 1u64)) by (bit_vector);
    }
}

pub broadcast proof fn lemma_has_xor(a: u64, b: u64, t: int)
    ensures
        #[trigger] mem(a ^ b, t) == (0 <= t < 64 && mem(a, t) != mem(b, t)),
{
    if 0 <= t < 64 {
        let u = t as u64;
        assert(((a ^ b) >> u) & 1u64 == 1u64 <==> ((a >> u) & 1u64 == 1u64) != ((b >> u) & 1u64
            == 1u64)) by (bit_vector);
    }
}

pub broadcast proof fn lemma_has_not(a: u64, t: int)
    ensures
        #[trigger] mem(!a, t) == (0 <= t < 64 && !mem(a, t)),
{
    if 0 <= t < 64 {
        let u = t as u64;
        assert(u < 64 ==> (((!a) >> u) & 1u64 == 1u64 <==> !((a >> u) & 1u64 == 1u64)))
            by (bit_vector);
    }
}

pub broadcast proof fn lemma_has_single(s: int, t: int)
    requires
        0 <= s < 64,
    ensures
        #[trigger] mem(single(s), t) == (s == t),
{
    if 0 <= t < 64 {
        let u = t as u64;
        let v = s as u64;
        assert(v < 64 && u < 64 ==> (((1u64 << v) >> u) & 1u64 == 1u64 <==> v == u))
            by (bit_vector);
    }
}

pub broadcast proof fn lemma_has_zero(t: int)
    ensures
        !#[trigger] mem(0u64, t),
{
    if 0 <= t < 64 {
        let u = t as u64;
        assert((0u64 >> u) & 1u64 == 0u64) by (bit_vector);
    }
}

pub broadcast group group_bits {
    lemma_has_or,
    lemma_has_and,
    lemma_has_xor,
    lemma_has_not,
    lemma_has_single,
    lemma_has_zero,
}

/// A word with no member is zero.
pub proof fn lemma_no_member_zero(b: u64)
    requires
        forall|t: int| 0 <= t < 64 ==> !#[trigger] mem(b, t),
    ensures
        b == 0,
{
    if b != 0 {
        axiom_u64_trailing_zeros(b);
        let z = u64_trailing_zeros(b);
        assert(mem(b, z as int));
    }
}

/// Two words with the same members are equal.
pub proof fn lemma_bits_ext(a: u64, b: u64)
    requires
        forall|t: int| 0 <= t < 64 ==> #[trigger] mem(a, t) == mem(b, t),
    ensures
        a == b,
{
    broadcast use group_bits;

    assert forall|t: int| 0 <= t < 64 implies !#[trigger] mem(a ^ b, t) by {
        assert(mem(a, t) == mem(b, t));
    }
    lemma_no_member_zero(a ^ b);
    assert((a ^ b) == 0u64 ==> a == b) by (bit_vector);
}

/// A word is non-zero exactly when it has a member.
pub proof fn lemma_nonzero_iff(b: u64)
    ensures
        (b != 0) == (exists|s: int| 0 <= s < 64 && #[trigger] mem(b, s)),
{
    if b != 0 {
        lemma_lowest(b);
        assert(mem(b, lowest(b)));
    } else {
        assert forall|s: int| !#[trigger] mem(b, s) by {
            lemma_has_zero(s);
        }
    }
}

pub proof fn lemma_pop_upto_bounds(b: u64, n: int)
    requires
        0 <= n,
    ensures
        0 <= pop_upto(b, n) <= n,
    decreases n,
{
    if n > 0 {
        lemma_pop_upto_bounds(b, n - 1);
    }
}

pub proof fn lemma_pop_upto_zero(n: int)
    ensures
        pop_upto(0u64, n) == 0,
    decreases n,
{
    broadcast use group_bits;

    if n > 0 {
        lemma_pop_upto_zero(n - 1);
    }
}

pub proof fn lemma_pop_upto_pos(b: u64, n: int, s: int)
    requires
        0 <= s < n,
        mem(b, s),
    ensures
        pop_upto(b, n) >= 1,
    decreases n,
{
    if s < n - 1 {
        lemma_pop_upto_pos(b, n - 1, s);
    } else {
        lemma_pop_upto_bounds(b, n - 1);
    }
}

/// Removing one member lowers the count by one.
pub proof fn lemma_pop_upto_remove(b: u64, s: int, n: int)
    requires
        0 <= s < 64,
        mem(b, s),
        0 <= n,
    ensures
        pop_upto(b ^ single(s), n) == pop_upto(b, n) - (if s < n { 1int } else { 0int }),
    decreases n,
{
    broadcast use group_bits;

    if n > 0 {
        lemma_pop_upto_remove(b, s, n - 1);
    }
}

pub proof fn lemma_popcount_zero_iff(b: u64)
    ensures
        (popcount(b) == 0) == (b == 0),
        0 <= popcount(b) <= 64,
{
    lemma_pop_upto_bounds(b, 64);
    if b == 0 {
        lemma_pop_upto_zero(64);
    } else {
        axiom_u64_trailing_zeros(b);
        let z = u64_trailing_zeros(b);
        assert(mem(b, z as int));
        lemma_pop_upto_pos(b, 64, z as int);
    }
}

/// A set of one member has no two distinct members.
pub proof fn lemma_popcount_one(b: u64)
    requires
        popcount(b) == 1,
    ensures
        forall|s: int, t: int| #[trigger] mem(b, s) && #[trigger] mem(b, t) ==> s == t,
{
    broadcast use group_bits;

    assert forall|s: int, t: int| #[trigger] mem(b, s) && #[trigger] mem(b, t) implies s == t by {
        if s != t {
            lemma_pop_upto_remove(b, s, 64);
            lemma_popcount_zero_iff(b ^ single(s));
            assert(mem(b ^ single(s), t));
        }
    }
}

/// A set whose only member is `f` has one member.
pub proof fn lemma_popcount_single(w: u64, f: int)
    requires
        0 <= f < 64,
        forall|t: int| #[trigger] mem(w, t) == (t == f),
    ensures
        popcount(w) == 1,
{
    broadcast use group_bits;

    lemma_pop_upto_remove(w, f, 64);
    assert forall|t: int| 0 <= t < 64 implies !#[trigger] mem(w ^ single(f), t) by {}
    lemma_no_member_zero(w ^ single(f));
    lemma_pop_upto_zero(64);
}

/// Lowest member of a non-empty set.
pub open spec fn lowest(b: u64) -> int {
    u64_trailing_zeros(b) as int
}

pub proof fn lemma_lowest(b: u64)
    requires
        b != 0,
    ensures
        0 <= lowest(b) < 64,
        mem(b, lowest(b)),
        forall|t: int| 0 <= t < lowest(b) ==> !#[trigger] mem(b, t),
{
    axiom_u64_trailing_zeros(b);
    let z = u64_trailing_zeros(b) as u64;
    assert forall|t: int| 0 <= t < lowest(b) implies !#[trigger] mem(b, t) by {
        let u = t as u64;
        assert((b >> u) & 1u64 == 0u64);
    }
}

pub const FILE_A: u64 = 0x0101_0101_0101_0101;
pub const FILE_H: u64 = 0x8080_8080_8080_8080;

/// A set of squares.
#[derive(Clone, Copy, PartialEq, Eq, Structural, Debug, Hash)]
pub struct Bitboard(pub u64);

impl Bitboard {
    pub const EMPTY: u64 = 0;
    pub const FULL: u64 = 0xFFFF_FFFF_FFFF_FFFF;

    pub fn from_square(sq: u8) -> (r: Bitboard)
        requires
            sq < 64,
        ensures
            r.0 == single(sq as int),
            forall|t: int| #[trigger] mem(r.0, t) == (t == sq),
    {
        broadcast use group_bits;

        Bitboard(1u64 << sq)
    }

    pub fn any(self) -> (r: bool)
        ensures
            r == (self.0 != 0),
    {
        self.0 != 0
    }

    pub fn is_empty(self) -> (r: bool)
        ensures
            r == (self.0 == 0),
    {
        self.0 == 0
    }

    pub fn contains(self, sq: u8) -> (r: bool)
        requires
            sq < 64,
        ensures
            r == mem(self.0, sq as int),
    {
        (self.0 >> sq) & 1 == 1
    }

    pub fn set(&mut self, sq: u8)
        requires
            sq < 64,
        ensures
            final(self).0 == old(self).0 | single(sq as int),
            forall|t: int| #[trigger] mem(final(self).0, t) == (mem(old(self).0, t) || t == sq),
    {
        broadcast use group_bits;

        self.0 = self.0 | (1u64 << sq);
    }

    pub fn clear(&mut self, sq: u8)
        requires
            sq < 64,
        ensures
            final(self).0 == old(self).0 & !single(sq as int),
            forall|t: int| #[trigger] mem(final(self).0, t) == (mem(old(self).0, t) && t != sq),
    {
        broadcast use group_bits;

        let m = 1u64 << (sq as u64);
        proof {
            assert(m == single(sq as int));
            assert forall|t: int| #[trigger] mem(self.0 & !m, t) == (mem(self.0, t) && t != sq) by {
                assert(mem(m, t) == (t == sq));
            }
        }
        self.0 = self.0 & !m;
    }

    /// Number of members.
    pub fn count(self) -> (r: u32)
        ensures
            r == popcount(self.0),
            r <= 64,
    {
        let b = self.0;
        let mut c: u32 = 0;
        let mut i: u64 = 0;
        while i < 64
            invariant
                0 <= i <= 64,
                c == pop_upto(b, i as int),
                c <= i,
            decreases 64 - i,
        {
            proof {
                lemma_pop_upto_bounds(b, i as int);
            }
            if (b >> i) & 1 == 1 {
                c = c + 1;
            }
            i = i + 1;
        }
        c
    }

    /// Lowest member. Caller must ensure non-empty.
    pub fn lsb(self) -> (r: u8)
        requires
            self.0 != 0,
        ensures
            r == lowest(self.0),
            r < 64,
            mem(self.0, r as int),
            forall|t: int| 0 <= t < r ==> !#[trigger] mem(self.0, t),
    {
        proof {
            lemma_lowest(self.0);
        }
        self.0.trailing_zeros() as u8
    }

    /// Highest member. Caller must ensure non-empty.
    pub fn msb(self) -> (r: u8)
        requires
            self.0 != 0,
        ensures
            r < 64,
            mem(self.0, r as int),
            forall|t: int| r < t < 64 ==> !#[trigger] mem(self.0, t),
    {
        let b = self.0;
        let mut i: u8 = 63;
        while (b >> i) & 1 == 0
            invariant
                0 <= i < 64,
                forall|t: int| i < t < 64 ==> !#[trigger] mem(b, t),
                b != 0,
            decreases i,
        {
            if i == 0 {
                proof {
                    assert forall|t: int| 0 <= t < 64 implies !#[trigger] mem(b, t) by {}
                    lemma_no_member_zero(b);
                }
                return 0;
            }
            i = i - 1;
        }
        proof {
            let x = b >> (i as u64);
            assert(x & 1u64 != 0u64 ==> x & 1u64 == 1u64) by (bit_vector);
        }
        i
    }

    /// Remove and return the lowest member.
    pub fn pop_lsb(&mut self) -> (r: u8)
        requires
            old(self).0 != 0,
        ensures
            r == lowest(old(self).0),
            r < 64,
            mem(old(self).0, r as int),
            forall|t: int| 0 <= t < r ==> !#[trigger] mem(old(self).0, t),
            final(self).0 == old(self).0 ^ single(r as int),
            forall|t: int| #[trigger] mem(final(self).0, t) == (mem(old(self).0, t) && t != r),
            popcount(final(self).0) == popcount(old(self).0) - 1,
    {
        broadcast use group_bits;

        let s = self.lsb();
        proof {
            lemma_pop_upto_remove(self.0, s as int, 64);
        }
        self.0 = self.0 ^ (1u64 << s);
        s
    }

    pub fn shift_north(self) -> (r: Bitboard)
        ensures
            forall|t: int| #[trigger] mem(r.0, t) == (8 <= t < 64 && mem(self.0, t - 8)),
    {
        let b = self.0;
        proof {
            assert forall|t: int| #[trigger] mem(b << 8u64, t) == (8 <= t < 64 && mem(b, t - 8)) by {
                if 0 <= t < 64 {
                    let u = t as u64;
                    assert(u < 64 ==> (((b << 8u64) >> u) & 1u64 == 1u64 <==> (u >= 8 && (b >> (
                    (u - 8u64) as u64)) & 1u64 == 1u64))) by (bit_vector);
                }
            }
        }
        Bitboard(b << 8)
    }

    pub fn shift_south(self) -> (r: Bitboard)
        ensures
            forall|t: int| #[trigger] mem(r.0, t) == (0 <= t < 56 && mem(self.0, t + 8)),
    {
        let b = self.0;
        proof {
            assert forall|t: int| #[trigger] mem(b >> 8u64, t) == (0 <= t < 56 && mem(b, t + 8)) by {
                if 0 <= t < 64 {
                    let u = t as u64;
                    assert(u < 64 ==> (((b >> 8u64) >> u) & 1u64 == 1u64 <==> (u < 56 && (b >> (
                    (u + 8u64) as u64)) & 1u64 == 1u64))) by (bit_vector);
                }
            }
        }
        Bitboard(b >> 8)
    }

    /// Move every member one file toward h (members on the h-file drop off).
    pub fn shift_east(self) -> (r: Bitboard)
        ensures
            forall|t: int| #[trigger] mem(r.0, t) == (0 <= t < 64 && t % 8 != 0 && mem(self.0, t - 1)),
    {
        let b = self.0;
        proof {
            assert forall|t: int| #[trigger] mem((b << 1u64) & !FILE_A, t) == (0 <= t < 64 && t % 8
                != 0 && mem(b, t - 1)) by {
                if 0 <= t < 64 {
                    let u = t as u64;
                    assert(u < 64 ==> ((((b << 1u64) & !0x0101_0101_0101_0101u64) >> u) & 1u64
                        == 1u64 <==> (u % 8 != 0 && (b >> ((u - 1u64) as u64)) & 1u64 == 1u64)))
                        by (bit_vector);
                }
            }
        }
        Bitboard((b << 1) & !FILE_A)
    }

    /// Move every member one file toward a (members on the a-file drop off).
    pub fn shift_west(self) -> (r: Bitboard)
        ensures
            forall|t: int| #[trigger] mem(r.0, t) == (0 <= t < 64 && t % 8 != 7 && mem(self.0, t + 1)),
    {
        let b = self.0;
        proof {
            assert forall|t: int| #[trigger] mem((b >> 1u64) & !FILE_H, t) == (0 <= t < 64 && t % 8
                != 7 && mem(b, t + 1)) by {
                if 0 <= t < 64 {
                    let u = t as u64;
                    assert(u < 64 ==> ((((b >> 1u64) & !0x8080_8080_8080_8080u64) >> u) & 1u64
                        == 1u64 <==> (u % 8 != 7 && (b >> ((u + 1u64) as u64)) & 1u64 == 1u64)))
                        by (bit_vector);
                }
            }
        }
        Bitboard((b >> 1) & !FILE_H)
    }
}

} // verus!
