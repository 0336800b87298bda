//! Attack sets of the chess pieces, computed on the fly from board geometry.
//!
//! Every function states its result as a set of squares described by
//! coordinates: files and ranks of the origin and of the attacked square.
use vstd::prelude::*;
use crate::bitboard::{mem, single, group_bits};
use crate::types::{Color, file_of, rank_of};

verus! {

broadcast use group_bits;

pub open spec fn abs(x: int) -> int {
    if x < 0 {
        -x
    } else {
        x
    }
}

/// `k` steps of length `d` in {-1, 0, 1}.
pub open spec fn steps(k: int, d: int) -> int {
    if d > 0 {
        k
    } else if d < 0 {
        -k
    } else {
        0
    }
}

/// The square `k` steps away from `a` in direction `(df, dr)` lies on the board.
pub open spec fn ray_on(a: int, df: int, dr: int, k: int) -> bool {
    0 <= file_of(a) + steps(k, df) < 8 && 0 <= rank_of(a) + steps(k, dr) < 8
}

/// The square `k` steps away from `a` in direction `(df, dr)`.
pub open spec fn ray_sq(a: int, df: int, dr: int, k: int) -> int {
    (rank_of(a) + steps(k, dr)) * 8 + file_of(a) + steps(k, df)
}

/// `x` is reached from `a` by one jump `(df, dr)` that stays on the board.
pub open spec fn jump(a: int, df: int, dr: int, x: int) -> bool {
    0 <= file_of(a) + df < 8 && 0 <= rank_of(a) + dr < 8 && x == (rank_of(a) + dr) * 8 + file_of(
        a,
    ) + df
}

/// A knight on `a` attacks `x`.
pub open spec fn knight_adj(a: int, x: int) -> bool {
    let df = abs(file_of(x) - file_of(a));
    let dr = abs(rank_of(x) - rank_of(a));
    0 <= x < 64 && ((df == 1 && dr == 2) || (df == 2 && dr == 1))
}

/// A king on `a` attacks `x`.
pub open spec fn king_adj(a: int, x: int) -> bool {
    let df = abs(file_of(x) - file_of(a));
    let dr = abs(rank_of(x) - rank_of(a));
    0 <= x < 64 && df <= 1 && dr <= 1 && (df == 1 || dr == 1)
}

/// A pawn of color `c` on `a` attacks `x` (one rank forward, one file aside).
pub open spec fn pawn_adj(c: Color, a: int, x: int) -> bool {
    0 <= x < 64 && abs(file_of(x) - file_of(a)) == 1 && rank_of(x) == rank_of(a) + (if c
        == Color::White {
        1int
    } else {
        -1int
    })
}

/// A slider on `a` moving along `(df, dr)` reaches `x` given the occupancy `occ`:
/// `x` is on that ray and every square strictly before it is empty.
pub open spec fn ray_hit(a: int, df: int, dr: int, occ: u64, x: int) -> bool {
    exists|k: int|
        #![trigger ray_sq(a, df, dr, k)]
        1 <= k < 8 && ray_on(a, df, dr, k) && ray_sq(a, df, dr, k) == x && forall|j: int|
            1 <= j < k ==> !#[trigger] mem(occ, ray_sq(a, df, dr, j))
}

/// A rook on `a` attacks `x` given the occupancy `occ`.
pub open spec fn rook_hit(a: int, occ: u64, x: int) -> bool {
    ray_hit(a, 1, 0, occ, x) || ray_hit(a, -1, 0, occ, x) || ray_hit(a, 0, 1, occ, x) || ray_hit(
        a,
        0,
        -1,
        occ,
        x,
    )
}

/// A bishop on `a` attacks `x` given the occupancy `occ`.
pub open spec fn bishop_hit(a: int, occ: u64, x: int) -> bool {
    ray_hit(a, 1, 1, occ, x) || ray_hit(a, -1, 1, occ, x) || ray_hit(a, 1, -1, occ, x) || ray_hit(
        a,
        -1,
        -1,
        occ,
        x,
    )
}

pub open spec fn sign(x: int) -> int {
    if x > 0 {
        1
    } else if x < 0 {
        -1
    } else {
        0
    }
}

/// `a` and `b` are distinct squares on a common rank, file or diagonal.
pub open spec fn aligned(a: int, b: int) -> bool {
    let df = file_of(b) - file_of(a);
    let dr = rank_of(b) - rank_of(a);
    0 <= a < 64 && 0 <= b < 64 && a != b && (df == 0 || dr == 0 || abs(df) == abs(dr))
}

/// Distance in king steps.
pub open spec fn cheb(a: int, b: int) -> int {
    let df = abs(file_of(b) - file_of(a));
    let dr = abs(rank_of(b) - rank_of(a));
    if df > dr {
        df
    } else {
        dr
    }
}

/// `x` lies strictly between the aligned squares `a` and `b`.
pub open spec fn between_sq(a: int, b: int, x: int) -> bool {
    aligned(a, b) && exists|j: int|
        #![trigger ray_sq(a, sign(file_of(b) - file_of(a)), sign(rank_of(b) - rank_of(a)), j)]
        0 < j < cheb(a, b) && x == ray_sq(
            a,
            sign(file_of(b) - file_of(a)),
            sign(rank_of(b) - rank_of(a)),
            j,
        )
}

/// `x` lies on the full board line through the aligned squares `a` and `b`.
pub open spec fn line_sq(a: int, b: int, x: int) -> bool {
    aligned(a, b) && exists|j: int|
        #![trigger ray_sq(a, sign(file_of(b) - file_of(a)), sign(rank_of(b) - rank_of(a)), j)]
        -8 < j < 8 && ray_on(a, sign(file_of(b) - file_of(a)), sign(rank_of(b) - rank_of(a)), j)
            && x == ray_sq(a, sign(file_of(b) - file_of(a)), sign(rank_of(b) - rank_of(a)), j)
}

proof fn lemma_jump(a: int, df: int, dr: int, x: int)
    requires
        0 <= a < 64,
        0 <= x < 64,
    ensures
        jump(a, df, dr, x) == (file_of(x) - file_of(a) == df && rank_of(x) - rank_of(a) == dr),
{
}

/// Bit of the square one jump `(df, dr)` away from `sq`, or nothing when it leaves the board.
fn jump_bit(sq: u8, df: i8, dr: i8) -> (r: u64)
    requires
        sq < 64,
        -2 <= df <= 2,
        -2 <= dr <= 2,
    ensures
        forall|x: int| #[trigger] mem(r, x) == jump(sq as int, df as int, dr as int, x),
{
    proof {
        crate::types::lemma_square_bits(sq);
    }
    let f = (sq & 7) as i8 + df;
    let rk = (sq >> 3) as i8 + dr;
    if f < 0 || f > 7 || rk < 0 || rk > 7 {
        return 0;
    }
    let t = (rk * 8 + f) as u8;
    assert(1u64 << (t as u64) == single(t as int));
    1u64 << t
}

pub fn pawn_attacks(color: Color, sq: u8) -> (r: u64)
    requires
        sq < 64,
    ensures
        forall|x: int| #[trigger] mem(r, x) == pawn_adj(color, sq as int, x),
{
    let dr: i8 = match color {
        Color::White => 1,
        Color::Black => -1,
    };
    let r = jump_bit(sq, -1, dr) | jump_bit(sq, 1, dr);
    proof {
        assert forall|x: int| #[trigger] mem(r, x) == pawn_adj(color, sq as int, x) by {
            if 0 <= x < 64 {
                lemma_jump(sq as int, -1, dr as int, x);
                lemma_jump(sq as int, 1, dr as int, x);
            }
        }
    }
    r
}

pub fn knight_attacks(sq: u8) -> (r: u64)
    requires
        sq < 64,
    ensures
        forall|x: int| #[trigger] mem(r, x) == knight_adj(sq as int, x),
{
    let r = jump_bit(sq, 1, 2) | jump_bit(sq, 2, 1) | jump_bit(sq, 2, -1) | jump_bit(sq, 1, -2)
        | jump_bit(sq, -1, -2) | jump_bit(sq, -2, -1) | jump_bit(sq, -2, 1) | jump_bit(sq, -1, 2);
    proof {
        assert forall|x: int| #[trigger] mem(r, x) == knight_adj(sq as int, x) by {
            if 0 <= x < 64 {
                let a = sq as int;
                lemma_jump(a, 1, 2, x);
                lemma_jump(a, 2, 1, x);
                lemma_jump(a, 2, -1, x);
                lemma_jump(a, 1, -2, x);
                lemma_jump(a, -1, -2, x);
                lemma_jump(a, -2, -1, x);
                lemma_jump(a, -2, 1, x);
                lemma_jump(a, -1, 2, x);
            }
        }
    }
    r
}

pub fn king_attacks(sq: u8) -> (r: u64)
    requires
        sq < 64,
    ensures
        forall|x: int| #[trigger] mem(r, x) == king_adj(sq as int, x),
{
    let r = jump_bit(sq, 1, 0) | jump_bit(sq, 1, 1) | jump_bit(sq, 0, 1) | jump_bit(sq, -1, 1)
        | jump_bit(sq, -1, 0) | jump_bit(sq, -1, -1) | jump_bit(sq, 0, -1) | jump_bit(sq, 1, -1);
    proof {
        assert forall|x: int| #[trigger] mem(r, x) == king_adj(sq as int, x) by {
            if 0 <= x < 64 {
                let a = sq as int;
                lemma_jump(a, 1, 0, x);
                lemma_jump(a, 1, 1, x);
                lemma_jump(a, 0, 1, x);
                lemma_jump(a, -1, 1, x);
                lemma_jump(a, -1, 0, x);
                lemma_jump(a, -1, -1, x);
                lemma_jump(a, 0, -1, x);
                lemma_jump(a, 1, -1, x);
            }
        }
    }
    r
}

/// Squares reached by a slider from `sq` along `(df, dr)`, stopping at the first occupied square.
fn ray_attacks(sq: u8, df: i8, dr: i8, occ: u64) -> (r: u64)
    requires
        sq < 64,
        -1 <= df <= 1,
        -1 <= dr <= 1,
        df != 0 || dr != 0,
    ensures
        forall|x: int| #[trigger] mem(r, x) == ray_hit(sq as int, df as int, dr as int, occ, x),
{
    let ghost a = sq as int;
    let ghost fd = df as int;
    let ghost rd = dr as int;
    proof {
        crate::types::lemma_square_bits(sq);
    }
    let mut f: i8 = (sq & 7) as i8;
    let mut rk: i8 = (sq >> 3) as i8;
    let mut r: u64 = 0;
    let mut k: i8 = 0;
    let mut blocked = false;
    while k < 7 && !blocked
        invariant
            0 <= k <= 7,
            f == file_of(a) + steps(k as int, fd),
            rk == rank_of(a) + steps(k as int, rd),
            0 <= f < 8,
            0 <= rk < 8,
            -1 <= df <= 1,
            -1 <= dr <= 1,
            a == sq,
            fd == df,
            rd == dr,
            0 <= a < 64,
            forall|j: int| 1 <= j <= k ==> ray_on(a, fd, rd, j),
            forall|j: int| 1 <= j < k ==> !#[trigger] mem(occ, ray_sq(a, fd, rd, j)),
            !blocked && k > 0 ==> !mem(occ, ray_sq(a, fd, rd, k as int)),
            blocked ==> k > 0 && mem(occ, ray_sq(a, fd, rd, k as int)),
            forall|x: int| #[trigger]
                mem(r, x) == (exists|j: int|
                    #![trigger ray_sq(a, fd, rd, j)]
                    1 <= j <= k && ray_sq(a, fd, rd, j) == x),
        ensures
            blocked || k == 7 || !ray_on(a, fd, rd, k + 1),
            forall|j: int| 1 <= j <= k ==> ray_on(a, fd, rd, j),
            forall|j: int| 1 <= j < k ==> !#[trigger] mem(occ, ray_sq(a, fd, rd, j)),
            blocked ==> k > 0 && mem(occ, ray_sq(a, fd, rd, k as int)),
            !blocked && k > 0 ==> !mem(occ, ray_sq(a, fd, rd, k as int)),
            forall|x: int| #[trigger]
                mem(r, x) == (exists|j: int|
                    #![trigger ray_sq(a, fd, rd, j)]
                    1 <= j <= k && ray_sq(a, fd, rd, j) == x),
        decreases 7 - k,
    {
        let nf = f + df;
        let nr = rk + dr;
        if nf < 0 || nf > 7 || nr < 0 || nr > 7 {
            break;
        }
        let t = (nr * 8 + nf) as u8;
        let ghost old_r = r;
        let ghost kk = k as int + 1;
        assert(ray_sq(a, fd, rd, kk) == t);
        assert(1u64 << (t as u64) == single(t as int));
        r = r | (1u64 << t);
        f = nf;
        rk = nr;
        k = k + 1;
        if (occ >> t) & 1 == 1 {
            blocked = true;
        }
        proof {
            let x0 = (occ >> (t as u64));
            assert(x0 & 1u64 != 1u64 ==> !(x0 & 1u64 == 1u64)) by (bit_vector);
            assert forall|x: int| #[trigger]
                mem(r, x) == (exists|j: int|
                    #![trigger ray_sq(a, fd, rd, j)]
                    1 <= j <= k && ray_sq(a, fd, rd, j) == x) by {
                if mem(r, x) {
                    if mem(old_r, x) {
                        let j = choose|j: int|
                            #![trigger ray_sq(a, fd, rd, j)]
                            1 <= j <= kk - 1 && ray_sq(a, fd, rd, j) == x;
                        assert(1 <= j <= k && ray_sq(a, fd, rd, j) == x);
                    } else {
                        assert(ray_sq(a, fd, rd, kk) == x);
                    }
                }
                if exists|j: int|
                    #![trigger ray_sq(a, fd, rd, j)]
                    1 <= j <= k && ray_sq(a, fd, rd, j) == x {
                    let j = choose|j: int|
                        #![trigger ray_sq(a, fd, rd, j)]
                        1 <= j <= k && ray_sq(a, fd, rd, j) == x;
                    if j < kk {
                        assert(mem(old_r, x));
                    }
                }
            }
        }
    }
    proof {
        assert forall|x: int| #[trigger] mem(r, x) == ray_hit(a, fd, rd, occ, x) by {
            if mem(r, x) {
                let j = choose|j: int|
                    #![trigger ray_sq(a, fd, rd, j)]
                    1 <= j <= k && ray_sq(a, fd, rd, j) == x;
                assert(ray_on(a, fd, rd, j));
                assert forall|i: int| 1 <= i < j implies !#[trigger] mem(
                    occ,
                    ray_sq(a, fd, rd, i),
                ) by {
                    assert(i < k);
                }
                assert(ray_hit(a, fd, rd, occ, x));
            }
            if ray_hit(a, fd, rd, occ, x) {
                let j = choose|j: int|
                    #![trigger ray_sq(a, fd, rd, j)]
                    1 <= j < 8 && ray_on(a, fd, rd, j) && ray_sq(a, fd, rd, j) == x && forall|
                        i: int,
                    | 1 <= i < j ==> !#[trigger] mem(occ, ray_sq(a, fd, rd, i));
                if j > k {
                    if blocked {
                        assert(!mem(occ, ray_sq(a, fd, rd, k as int)));
                    } else if k < 7 {
                        assert(!ray_on(a, fd, rd, k + 1));
                        assert(ray_on(a, fd, rd, j));
                    }
                }
                assert(1 <= j <= k && ray_sq(a, fd, rd, j) == x);
            }
        }
    }
    r
}

pub fn rook_attacks(sq: u8, occ: u64) -> (r: u64)
    requires
        sq < 64,
    ensures
        forall|x: int| #[trigger] mem(r, x) == rook_hit(sq as int, occ, x),
{
    ray_attacks(sq, 1, 0, occ) | ray_attacks(sq, -1, 0, occ) | ray_attacks(sq, 0, 1, occ)
        | ray_attacks(sq, 0, -1, occ)
}

pub fn bishop_attacks(sq: u8, occ: u64) -> (r: u64)
    requires
        sq < 64,
    ensures
        forall|x: int| #[trigger] mem(r, x) == bishop_hit(sq as int, occ, x),
{
    ray_attacks(sq, 1, 1, occ) | ray_attacks(sq, -1, 1, occ) | ray_attacks(sq, 1, -1, occ)
        | ray_attacks(sq, -1, -1, occ)
}

pub fn queen_attacks(sq: u8, occ: u64) -> (r: u64)
    requires
        sq < 64,
    ensures
        forall|x: int| #[trigger] mem(r, x) == (rook_hit(sq as int, occ, x) || bishop_hit(
            sq as int,
            occ,
            x,
        )),
{
    rook_attacks(sq, occ) | bishop_attacks(sq, occ)
}


fn stepi(j: i8, d: i8) -> (r: i8)
    requires
        -8 <= j <= 8,
        -1 <= d <= 1,
    ensures
        r == steps(j as int, d as int),
{
    if d > 0 {
        j
    } else if d < 0 {
        -j
    } else {
        0
    }
}

/// Squares `j` steps from `a` along `(sf, sr)` for `lo <= j < hi` that lie on the board.
fn ray_span(a: u8, sf: i8, sr: i8, lo: i8, hi: i8) -> (r: u64)
    requires
        a < 64,
        -1 <= sf <= 1,
        -1 <= sr <= 1,
        -8 <= lo <= hi <= 8,
    ensures
        forall|x: int| #[trigger]
            mem(r, x) == (exists|j: int|
                #![trigger ray_sq(a as int, sf as int, sr as int, j)]
                lo <= j < hi && ray_on(a as int, sf as int, sr as int, j) && ray_sq(
                    a as int,
                    sf as int,
                    sr as int,
                    j,
                ) == x),
{
    let ghost ai = a as int;
    let ghost fd = sf as int;
    let ghost rd = sr as int;
    proof {
        crate::types::lemma_square_bits(a);
    }
    let fa = (a & 7) as i8;
    let ra = (a >> 3) as i8;
    let mut r: u64 = 0;
    let mut j: i8 = lo;
    while j < hi
        invariant
            lo <= j <= hi,
            -8 <= lo <= hi <= 8,
            -1 <= sf <= 1,
            -1 <= sr <= 1,
            ai == a,
            fd == sf,
            rd == sr,
            0 <= ai < 64,
            fa == file_of(ai),
            ra == rank_of(ai),
            forall|x: int| #[trigger]
                mem(r, x) == (exists|i: int|
                    #![trigger ray_sq(ai, fd, rd, i)]
                    lo <= i < j && ray_on(ai, fd, rd, i) && ray_sq(ai, fd, rd, i) == x),
        decreases hi - j,
    {
        let f = fa + stepi(j, sf);
        let rk = ra + stepi(j, sr);
        let ghost old_r = r;
        let ghost jj = j as int;
        if 0 <= f && f <= 7 && 0 <= rk && rk <= 7 {
            let t = (rk * 8 + f) as u8;
            assert(1u64 << (t as u64) == single(t as int));
            assert(ray_sq(ai, fd, rd, jj) == t);
            r = r | (1u64 << t);
        }
        j = j + 1;
        proof {
            assert forall|x: int| #[trigger]
                mem(r, x) == (exists|i: int|
                    #![trigger ray_sq(ai, fd, rd, i)]
                    lo <= i < j && ray_on(ai, fd, rd, i) && ray_sq(ai, fd, rd, i) == x) by {
                if mem(r, x) {
                    if mem(old_r, x) {
                        let i = choose|i: int|
                            #![trigger ray_sq(ai, fd, rd, i)]
                            lo <= i < jj && ray_on(ai, fd, rd, i) && ray_sq(ai, fd, rd, i) == x;
                        assert(lo <= i < j && ray_on(ai, fd, rd, i) && ray_sq(ai, fd, rd, i) == x);
                    } else {
                        assert(ray_on(ai, fd, rd, jj) && ray_sq(ai, fd, rd, jj) == x);
                    }
                }
                if exists|i: int|
                    #![trigger ray_sq(ai, fd, rd, i)]
                    lo <= i < j && ray_on(ai, fd, rd, i) && ray_sq(ai, fd, rd, i) == x {
                    let i = choose|i: int|
                        #![trigger ray_sq(ai, fd, rd, i)]
                        lo <= i < j && ray_on(ai, fd, rd, i) && ray_sq(ai, fd, rd, i) == x;
                    if i < jj {
                        assert(mem(old_r, x));
                    }
                }
            }
        }
    }
    r
}

/// Direction signs and king-step distance from `a` to `b`, when the two are aligned.
fn alignment(a: u8, b: u8) -> (r: Option<(i8, i8, i8)>)
    requires
        a < 64,
        b < 64,
    ensures
        r is Some == aligned(a as int, b as int),
        r matches Some(t) ==> t.0 == sign(file_of(b as int) - file_of(a as int)) && t.1 == sign(
            rank_of(b as int) - rank_of(a as int),
        ) && t.2 == cheb(a as int, b as int) && 1 <= t.2 <= 7,
{
    proof {
        crate::types::lemma_square_bits(a);
        crate::types::lemma_square_bits(b);
    }
    let df = (b & 7) as i8 - (a & 7) as i8;
    let dr = (b >> 3) as i8 - (a >> 3) as i8;
    if a == b {
        return None;
    }
    let adf = if df < 0 { -df } else { df };
    let adr = if dr < 0 { -dr } else { dr };
    if !(df == 0 || dr == 0 || adf == adr) {
        return None;
    }
    let sf: i8 = if df > 0 { 1 } else if df < 0 { -1 } else { 0 };
    let sr: i8 = if dr > 0 { 1 } else if dr < 0 { -1 } else { 0 };
    let n = if adf > adr { adf } else { adr };
    Some((sf, sr, n))
}

/// Squares strictly between `a` and `b` when they share a line; empty otherwise.
pub fn between(a: u8, b: u8) -> (r: u64)
    requires
        a < 64,
        b < 64,
    ensures
        forall|x: int| #[trigger] mem(r, x) == between_sq(a as int, b as int, x),
{
    match alignment(a, b) {
        None => 0,
        Some((sf, sr, n)) => {
            let r = ray_span(a, sf, sr, 1, n);
            proof {
                let ai = a as int;
                let fd = sf as int;
                let rd = sr as int;
                assert forall|x: int| #[trigger] mem(r, x) == between_sq(a as int, b as int, x) by {
                    if between_sq(ai, b as int, x) {
                        let j = choose|j: int|
                            #![trigger ray_sq(ai, fd, rd, j)]
                            0 < j < cheb(ai, b as int) && x == ray_sq(ai, fd, rd, j);
                        assert(ray_on(ai, fd, rd, j));
                    }
                    if mem(r, x) {
                        let j = choose|j: int|
                            #![trigger ray_sq(ai, fd, rd, j)]
                            1 <= j < n && ray_on(ai, fd, rd, j) && ray_sq(ai, fd, rd, j) == x;
                        assert(0 < j < cheb(ai, b as int) && x == ray_sq(ai, fd, rd, j));
                    }
                }
            }
            r
        },
    }
}

/// All board squares on the line through `a` and `b` when they share one; empty otherwise.
pub fn line(a: u8, b: u8) -> (r: u64)
    requires
        a < 64,
        b < 64,
    ensures
        forall|x: int| #[trigger] mem(r, x) == line_sq(a as int, b as int, x),
{
    match alignment(a, b) {
        None => 0,
        Some((sf, sr, _n)) => {
            let r = ray_span(a, sf, sr, -7, 8);
            r
        },
    }
}


pub proof fn lemma_coords(r: int, f: int)
    requires
        0 <= r < 8,
        0 <= f < 8,
    ensures
        file_of(r * 8 + f) == f,
        rank_of(r * 8 + f) == r,
{
}

/// A ray from `a` reaches `x` exactly when the opposite ray from `x` reaches `a`.
pub proof fn lemma_ray_sym(a: int, df: int, dr: int, occ: u64, x: int)
    requires
        0 <= a < 64,
        0 <= x < 64,
        -1 <= df <= 1,
        -1 <= dr <= 1,
    ensures
        ray_hit(a, df, dr, occ, x) == ray_hit(x, -df, -dr, occ, a),
{
    if ray_hit(a, df, dr, occ, x) {
        lemma_ray_back(a, df, dr, occ, x);
    }
    if ray_hit(x, -df, -dr, occ, a) {
        lemma_ray_back(x, -df, -dr, occ, a);
        assert(-(-df) == df && -(-dr) == dr);
    }
}

proof fn lemma_ray_back(a: int, df: int, dr: int, occ: u64, x: int)
    requires
        0 <= a < 64,
        0 <= x < 64,
        -1 <= df <= 1,
        -1 <= dr <= 1,
        ray_hit(a, df, dr, occ, x),
    ensures
        ray_hit(x, -df, -dr, occ, a),
{
    let k = choose|k: int|
        #![trigger ray_sq(a, df, dr, k)]
        1 <= k < 8 && ray_on(a, df, dr, k) && ray_sq(a, df, dr, k) == x && forall|j: int|
            1 <= j < k ==> !#[trigger] mem(occ, ray_sq(a, df, dr, j));
    lemma_coords(rank_of(a) + steps(k, dr), file_of(a) + steps(k, df));
    assert(file_of(x) == file_of(a) + steps(k, df));
    assert(rank_of(x) == rank_of(a) + steps(k, dr));
    assert(ray_on(x, -df, -dr, k));
    assert(ray_sq(x, -df, -dr, k) == a);
    assert forall|j: int| 1 <= j < k implies !#[trigger] mem(occ, ray_sq(x, -df, -dr, j)) by {
        assert(ray_sq(x, -df, -dr, j) == ray_sq(a, df, dr, k - j));
    }
}

pub proof fn lemma_rook_sym(a: int, occ: u64, x: int)
    requires
        0 <= a < 64,
        0 <= x < 64,
    ensures
        rook_hit(a, occ, x) == rook_hit(x, occ, a),
{
    lemma_ray_sym(a, 1, 0, occ, x);
    lemma_ray_sym(a, -1, 0, occ, x);
    lemma_ray_sym(a, 0, 1, occ, x);
    lemma_ray_sym(a, 0, -1, occ, x);
}

pub proof fn lemma_bishop_sym(a: int, occ: u64, x: int)
    requires
        0 <= a < 64,
        0 <= x < 64,
    ensures
        bishop_hit(a, occ, x) == bishop_hit(x, occ, a),
{
    lemma_ray_sym(a, 1, 1, occ, x);
    lemma_ray_sym(a, -1, 1, occ, x);
    lemma_ray_sym(a, 1, -1, occ, x);
    lemma_ray_sym(a, -1, -1, occ, x);
}

pub proof fn lemma_leaper_sym(c: Color, a: int, x: int)
    requires
        0 <= a < 64,
        0 <= x < 64,
    ensures
        knight_adj(a, x) == knight_adj(x, a),
        king_adj(a, x) == king_adj(x, a),
        pawn_adj(c, a, x) == pawn_adj(if c == Color::White { Color::Black } else { Color::White }, x, a),
{
}

/// When a ray from `a` reaches `b`, the squares strictly between them are empty.
pub proof fn lemma_ray_between(a: int, df: int, dr: int, occ: u64, b: int)
    requires
        0 <= a < 64,
        0 <= b < 64,
        -1 <= df <= 1,
        -1 <= dr <= 1,
        df != 0 || dr != 0,
        ray_hit(a, df, dr, occ, b),
    ensures
        forall|x: int| #[trigger] between_sq(a, b, x) ==> !mem(occ, x),
{
    let k = choose|k: int|
        #![trigger ray_sq(a, df, dr, k)]
        1 <= k < 8 && ray_on(a, df, dr, k) && ray_sq(a, df, dr, k) == b && forall|j: int|
            1 <= j < k ==> !#[trigger] mem(occ, ray_sq(a, df, dr, j));
    lemma_coords(rank_of(a) + steps(k, dr), file_of(a) + steps(k, df));
    assert(file_of(b) - file_of(a) == steps(k, df));
    assert(rank_of(b) - rank_of(a) == steps(k, dr));
    assert(sign(file_of(b) - file_of(a)) == df);
    assert(sign(rank_of(b) - rank_of(a)) == dr);
    assert(cheb(a, b) == k);
    assert forall|x: int| #[trigger] between_sq(a, b, x) implies !mem(occ, x) by {
        let j = choose|j: int|
            #![trigger ray_sq(a, sign(file_of(b) - file_of(a)), sign(rank_of(b) - rank_of(a)), j)]
            0 < j < cheb(a, b) && x == ray_sq(
                a,
                sign(file_of(b) - file_of(a)),
                sign(rank_of(b) - rank_of(a)),
                j,
            );
        assert(x == ray_sq(a, df, dr, j));
    }
}

/// Squares a king step or a knight jump apart have nothing between them.
pub proof fn lemma_leaper_between(a: int, b: int)
    requires
        0 <= a < 64,
        0 <= b < 64,
        knight_adj(a, b) || king_adj(a, b) || pawn_adj(Color::White, a, b) || pawn_adj(
            Color::Black,
            a,
            b,
        ),
    ensures
        forall|x: int| !#[trigger] between_sq(a, b, x),
{
}

/// Attack tables are computed on demand; nothing needs to be prepared.
pub fn init() {
}

} // verus!
