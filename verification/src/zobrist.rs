//! Zobrist hashing keys, generated deterministically from a fixed seed.
//!
//! The keys are the successive outputs of a splitmix64 stream whose state starts
//! at the golden-ratio constant. The `i`-th key (from 0) is the mix of the
//! state after `i + 1` increments, so any key can be computed directly.
//! Keys `0..768` are the piece-square keys (`piece * 64 + square`), `768..784`
//! the castling keys, `784..792` the en-passant file keys and `792` the
//! side-to-move key.
use vstd::prelude::*;
use vstd::wrapping::u64_specs::wrapping_mul;
use crate::types::{Color, Piece, Square};

verus! {

pub const GOLDEN: u64 = 0x9E37_79B9_7F4A_7C15;
pub const MIX1: u64 = 0xBF58_476D_1CE4_E5B9;
pub const MIX2: u64 = 0x94D0_49BB_1331_11EB;

/// The splitmix64 output function.
pub open spec fn mix(z0: u64) -> u64 {
    let z1 = wrapping_mul(z0 ^ (z0 >> 30u64), MIX1);
    let z2 = wrapping_mul(z1 ^ (z1 >> 27u64), MIX2);
    z2 ^ (z2 >> 31u64)
}

/// Key number `i` of the stream.
pub open spec fn zkey(i: int) -> u64 {
    mix(wrapping_mul((i + 2) as u64, GOLDEN))
}

/// Key of piece code `p` on square `s`.
pub open spec fn pkey(p: int, s: int) -> u64 {
    zkey(p * 64 + s)
}

/// Key of a castling-rights mask.
pub open spec fn ckey(r: int) -> u64 {
    zkey(768 + r)
}

/// Key of an en-passant file.
pub open spec fn ekey(f: int) -> u64 {
    zkey(784 + f)
}

/// Key folded in when Black is to move.
pub open spec fn skey() -> u64 {
    zkey(792)
}

/// Compute key number `i`.
fn key_at(i: u64) -> (r: u64)
    requires
        i <= 792,
    ensures
        r == zkey(i as int),
{
    let z0 = (i + 2).wrapping_mul(GOLDEN);
    let z1 = (z0 ^ (z0 >> 30)).wrapping_mul(MIX1);
    let z2 = (z1 ^ (z1 >> 27)).wrapping_mul(MIX2);
    z2 ^ (z2 >> 31)
}

/// The full key tables.
pub struct Zobrist {
    pub pieces: [[u64; 64]; 12],
    pub castling: [u64; 16],
    pub en_passant: [u64; 8],
    pub side: u64,
}

impl Zobrist {
    /// Build every table from the stream.
    pub fn build() -> (z: Zobrist)
        ensures
            forall|p: int, s: int|
                0 <= p < 12 && 0 <= s < 64 ==> #[trigger] z.pieces[p][s] == pkey(p, s),
            forall|r: int| 0 <= r < 16 ==> #[trigger] z.castling[r] == ckey(r),
            forall|f: int| 0 <= f < 8 ==> #[trigger] z.en_passant[f] == ekey(f),
            z.side == skey(),
    {
        let mut pieces = [[0u64; 64]; 12];
        let mut p: usize = 0;
        while p < 12
            invariant
                0 <= p <= 12,
                forall|q: int, s: int|
                    0 <= q < p && 0 <= s < 64 ==> #[trigger] pieces[q][s] == pkey(q, s),
            decreases 12 - p,
        {
            let mut row = [0u64; 64];
            let mut s: usize = 0;
            while s < 64
                invariant
                    0 <= s <= 64,
                    p < 12,
                    forall|t: int| 0 <= t < s ==> #[trigger] row[t] == pkey(p as int, t),
                decreases 64 - s,
            {
                row[s] = key_at((p * 64 + s) as u64);
                s = s + 1;
            }
            pieces[p] = row;
            p = p + 1;
        }
        let mut castling = [0u64; 16];
        let mut r: usize = 0;
        while r < 16
            invariant
                0 <= r <= 16,
                forall|t: int| 0 <= t < r ==> #[trigger] castling[t] == ckey(t),
            decreases 16 - r,
        {
            castling[r] = key_at((768 + r) as u64);
            r = r + 1;
        }
        let mut en_passant = [0u64; 8];
        let mut f: usize = 0;
        while f < 8
            invariant
                0 <= f <= 8,
                forall|t: int| 0 <= t < f ==> #[trigger] en_passant[t] == ekey(t),
            decreases 8 - f,
        {
            en_passant[f] = key_at((784 + f) as u64);
            f = f + 1;
        }
        let side = key_at(792);
        Zobrist { pieces, castling, en_passant, side }
    }
}

pub fn piece_key(piece: Piece, sq: Square) -> (r: u64)
    requires
        piece.0 < 12,
        sq.0 < 64,
    ensures
        r == pkey(piece.0 as int, sq.0 as int),
{
    key_at(piece.0 as u64 * 64 + sq.0 as u64)
}

pub fn castling_key(rights: u8) -> (r: u64)
    requires
        rights < 16,
    ensures
        r == ckey(rights as int),
{
    key_at(768 + rights as u64)
}

pub fn en_passant_key(file: u8) -> (r: u64)
    requires
        file < 8,
    ensures
        r == ekey(file as int),
{
    key_at(784 + file as u64)
}

pub fn side_key() -> (r: u64)
    ensures
        r == skey(),
{
    key_at(792)
}

/// Side-to-move key: the side key for Black, nothing for White.
pub fn color_key(color: Color) -> (r: u64)
    ensures
        r == (if color == Color::Black {
            skey()
        } else {
            0
        }),
{
    match color {
        Color::Black => key_at(792),
        Color::White => 0,
    }
}

} // verus!
