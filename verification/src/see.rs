//! Static exchange evaluation: does a move win at least a given amount of
//! material once every capture on its destination square has been played out,
//! each side always capturing with its least valuable piece?
use vstd::prelude::*;
use crate::bitboard::{Bitboard, group_bits, lemma_nonzero_iff, mem};
use crate::chess_move::Move;
use crate::position::Position;
use crate::types::{Color, PieceType, Square, code_type, pt_idx};

verus! {

broadcast use group_bits;

/// Exchange values of pawn, knight, bishop, rook, queen and king.
pub const SEE_VALUE: [i32; 6] = [100, 320, 330, 500, 900, 0];

/// Exchange value of the piece on `s` of `b`, or nothing for an empty square.
pub open spec fn value_on(b: Seq<u8>, s: int) -> int {
    if b[s] < 12 {
        SEE_VALUE[pt_idx(code_type(b[s] as int))] as int
    } else {
        0
    }
}

/// What a move takes: a pawn for en passant, else the piece on its destination.
pub open spec fn taken_value(b: Seq<u8>, m: u16) -> int {
    if crate::chess_move::mv_flag(m) == 5 {
        100
    } else {
        value_on(b, crate::chess_move::mv_to(m))
    }
}

fn value_at(pos: &Position, sq: Square) -> (r: i32)
    requires
        pos.wf(),
        sq.0 < 64,
    ensures
        r == value_on(pos@.board, sq.0 as int),
        0 <= r <= 900,
{
    proof {
        pos.lemma_wf();
    }
    match pos.piece_on(sq) {
        Some(p) => SEE_VALUE[p.piece_type().index()],
        None => 0,
    }
}

/// The least valuable piece type with a piece on one of the squares of `set`,
/// and the lowest such square.
fn least_valuable(pos: &Position, set: u64) -> (r: (usize, u8))
    requires
        pos.wf(),
        set != 0,
    ensures
        r.0 < 6,
        r.1 < 64,
        mem(set, r.1 as int),
{
    let mut t: usize = 0;
    while t < 6
        invariant
            t <= 6,
            pos.wf(),
            set != 0,
        decreases 6 - t,
    {
        let b = pos.pieces_by_type(PieceType::from_index(t)).0 & set;
        if b != 0 {
            return (t, Bitboard(b).lsb());
        }
        t = t + 1;
    }
    (5, Bitboard(set).lsb())
}

/// Whether the exchange that `m` starts on its destination gains at least
/// `threshold` for the side that plays it. Castling exchanges nothing.
pub fn see_ge(pos: &Position, m: Move, threshold: i32) -> (r: bool)
    requires
        pos.wf(),
        -100_000 <= threshold <= 100_000,
    ensures
        !(crate::chess_move::mv_flag(m.0) == 2 || crate::chess_move::mv_flag(m.0) == 3) && taken_value(pos@.board, m.0)
            < threshold ==> !r,
        (crate::chess_move::mv_flag(m.0) == 2 || crate::chess_move::mv_flag(m.0) == 3) ==> r == (0 >= threshold),
{
    if m.is_castle() {
        return 0 >= threshold;
    }
    let from = m.from();
    let to = m.to();
    let taken = if m.is_en_passant() {
        100
    } else {
        value_at(pos, to)
    };
    let mut swap: i32 = taken - threshold;
    if swap < 0 {
        return false;
    }
    let mover = value_at(pos, from);
    swap = mover - swap;
    if swap <= 0 {
        return true;
    }
    let mut occ = pos.occupied().0 ^ Bitboard::from_square(from.0).0 ^ Bitboard::from_square(to.0).0;
    // En passant also clears the captured pawn, behind the destination.
    if m.is_en_passant() && 8 <= to.0 && to.0 < 56 {
        let cap = if pos.side_to_move() == Color::White {
            to.0 - 8
        } else {
            to.0 + 8
        };
        occ = occ & !Bitboard::from_square(cap).0;
    }
    let mut stm = pos.side_to_move();
    let mut res: bool = true;
    let mut k: u32 = 0;
    while k < 64
        invariant
            pos.wf(),
            to.0 < 64,
            k <= 64,
            -110_000 - 1000 * k <= swap <= 110_000 + 1000 * k,
        decreases 64 - k,
    {
        stm = stm.flip();
        let attackers = pos.attackers_to(to, Bitboard(occ)).0 & occ;
        let mine = attackers & pos.color_pieces(stm).0;
        if mine == 0 {
            break;
        }
        res = !res;
        let (pt, sq) = least_valuable(pos, mine);
        if pt == 5 {
            let theirs = attackers & pos.color_pieces(stm.flip()).0;
            if theirs != 0 {
                res = !res;
            }
            break;
        }
        swap = SEE_VALUE[pt] - swap;
        let floor: i32 = if res {
            1
        } else {
            0
        };
        if swap < floor {
            break;
        }
        occ = occ & !Bitboard::from_square(sq).0;
        k = k + 1;
    }
    res
}

} // verus!
